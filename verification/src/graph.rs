//! The shared-subterm DAG, backed by the acyclic graph of the `daggy`
//! crate: one node per registry entry, and an edge from every term to
//! each of its immediate arguments, in argument order. The graph is
//! modelled by its node count and its edge list in insertion order;
//! `daggy` (through `petgraph`) walks the neighbours of a node in
//! reverse insertion order.

use daggy::Walker;
use vstd::prelude::*;

use crate::registry::position_of_term;
use crate::registry::registry_wf;
use crate::term::Term;
use crate::term::TermView;
use crate::term::arity_sum;
use crate::term::lemma_arity_sum_concat;
use crate::term::lemma_views_of;
use crate::term::views_of;

verus! {

/// Holder for the subterm DAG of `daggy`. The index-type trait bound of
/// `daggy::Dag` cannot be declared to the verifier, so the graph sits in
/// a field the verifier does not see and is reached only through the
/// trusted functions below.
#[verifier::external_body]
pub struct SubtermDag {
    inner: daggy::Dag<(), (), u32>,
}

/// The edges of the graph, as (source, target) node index pairs, in
/// insertion order.
pub uninterp spec fn dag_edges(d: SubtermDag) -> Seq<(int, int)>;

/// The number of nodes of the graph.
pub uninterp spec fn dag_node_count(d: SubtermDag) -> nat;

/// Relies on daggy::Dag::new: an empty graph.
#[verifier::external_body]
pub(crate) fn dag_new() -> (d: SubtermDag)
    ensures
        dag_node_count(d) == 0,
        dag_edges(d) == Seq::<(int, int)>::empty(),
{
    SubtermDag { inner: daggy::Dag::new() }
}

/// Relies on daggy::Dag::add_node: appends a node and returns its index,
/// the previous node count.
#[verifier::external_body]
pub(crate) fn dag_add_node(d: &mut SubtermDag) -> (r: usize)
    requires
        dag_node_count(*old(d)) < 0xFFFF_FFFFnat,
    ensures
        dag_node_count(*final(d)) == dag_node_count(*old(d)) + 1,
        dag_edges(*final(d)) == dag_edges(*old(d)),
        r as int == dag_node_count(*old(d)),
{
    d.inner.add_node(()).index()
}

/// Is node `y` reachable from node `x` along at most `fuel` edges?
pub open spec fn reaches_n(edges: Seq<(int, int)>, x: int, y: int, fuel: nat) -> bool
    decreases fuel,
{
    x == y || (fuel > 0 && exists|j: int|
        #[trigger] edges.contains((x, j)) && reaches_n(edges, j, y, (fuel - 1) as nat))
}

/// Is node `y` reachable from node `x` (in zero or more steps)?
pub open spec fn reaches(edges: Seq<(int, int)>, x: int, y: int) -> bool {
    exists|fuel: nat| reaches_n(edges, x, y, fuel)
}

/// Relies on daggy::Dag::add_edge: appends the edge `a -> b` and reports
/// success, unless the edge would close a cycle, that is unless `a` is
/// already reachable from `b` (`a == b` included); then the graph is
/// unchanged and failure is reported.
#[verifier::external_body]
pub(crate) fn dag_add_edge(d: &mut SubtermDag, a: usize, b: usize) -> (r: bool)
    requires
        (a as int) < dag_node_count(*old(d)),
        (b as int) < dag_node_count(*old(d)),
        dag_edges(*old(d)).len() < 0xFFFF_FFFFnat,
    ensures
        dag_node_count(*final(d)) == dag_node_count(*old(d)),
        r == !reaches(dag_edges(*old(d)), b as int, a as int),
        r ==> dag_edges(*final(d)) == dag_edges(*old(d)).push((a as int, b as int)),
        !r ==> dag_edges(*final(d)) == dag_edges(*old(d)),
{
    d.inner.add_edge(daggy::NodeIndex::new(a), daggy::NodeIndex::new(b), ()).is_ok()
}

/// The targets of the edges leaving `n`, in the order the graph walks
/// them: reverse insertion order, most recently added first.
pub open spec fn targets_from(edges: Seq<(int, int)>, n: int) -> Seq<int>
    decreases edges.len(),
{
    if edges.len() == 0 {
        Seq::empty()
    } else if edges.last().0 == n {
        seq![edges.last().1] + targets_from(edges.drop_last(), n)
    } else {
        targets_from(edges.drop_last(), n)
    }
}

/// The sources of the edges entering `n`, in the order the graph walks
/// them: reverse insertion order, most recently added first.
pub open spec fn sources_into(edges: Seq<(int, int)>, n: int) -> Seq<int>
    decreases edges.len(),
{
    if edges.len() == 0 {
        Seq::empty()
    } else if edges.last().1 == n {
        seq![edges.last().0] + sources_into(edges.drop_last(), n)
    } else {
        sources_into(edges.drop_last(), n)
    }
}

/// The values of a sequence of indices, as mathematical integers.
pub open spec fn seq_int(s: Seq<usize>) -> Seq<int> {
    s.map_values(|x: usize| x as int)
}

/// Relies on daggy::Dag::children (walked to exhaustion): the targets of
/// the edges leaving `n`, most recently added first.
#[verifier::external_body]
pub(crate) fn dag_children(d: &SubtermDag, n: usize) -> (r: Vec<usize>)
    requires
        (n as int) < dag_node_count(*d),
    ensures
        seq_int(r@) == targets_from(dag_edges(*d), n as int),
{
    d.inner.children(daggy::NodeIndex::new(n)).iter(&d.inner).map(|(_, c)| c.index()).collect()
}

/// Relies on daggy::Dag::parents (walked to exhaustion): the sources of
/// the edges entering `n`, most recently added first.
#[verifier::external_body]
pub(crate) fn dag_parents(d: &SubtermDag, n: usize) -> (r: Vec<usize>)
    requires
        (n as int) < dag_node_count(*d),
    ensures
        seq_int(r@) == sources_into(dag_edges(*d), n as int),
{
    d.inner.parents(daggy::NodeIndex::new(n)).iter(&d.inner).map(|(_, p)| p.index()).collect()
}

/// Height of a term: one more than the tallest argument.
pub open spec fn theight(t: TermView) -> nat
    decreases t,
{
    1 + theight_args(t.args)
}

/// The tallest height among a sequence of terms (zero if empty).
pub open spec fn theight_args(ts: Seq<TermView>) -> nat
    decreases ts,
{
    if ts.len() == 0 {
        0
    } else if theight(ts.last()) >= theight_args(ts.drop_last()) {
        theight(ts.last())
    } else {
        theight_args(ts.drop_last())
    }
}

/// Every argument is strictly lower than the term applying it.
pub proof fn lemma_theight_arg(ts: Seq<TermView>, i: int)
    requires
        0 <= i < ts.len(),
    ensures
        theight(ts[i]) <= theight_args(ts),
    decreases ts,
{
    if i < ts.len() - 1 {
        lemma_theight_arg(ts.drop_last(), i);
        assert(ts.drop_last()[i] == ts[i]);
    }
}

/// The registry index of the `k`-th argument of the `i`-th entry.
pub open spec fn child_idx(tv: Seq<TermView>, i: int, k: int) -> int {
    tv.index_of(tv[i].args[k])
}

/// In a well-formed registry the argument index is in range and names
/// the argument itself.
pub proof fn lemma_child_idx(tv: Seq<TermView>, i: int, k: int)
    requires
        registry_wf(tv),
        0 <= i < tv.len(),
        0 <= k < tv[i].args.len(),
    ensures
        0 <= child_idx(tv, i, k) < tv.len(),
        tv[child_idx(tv, i, k)] == tv[i].args[k],
        theight(tv[child_idx(tv, i, k)]) < theight(tv[i]),
{
    assert(tv.contains(tv[i].args[k]));
    let j = choose|j: int| 0 <= j < tv.len() && tv[j] == tv[i].args[k];
    assert(0 <= child_idx(tv, i, k) < tv.len() && tv[child_idx(tv, i, k)] == tv[i].args[k]);
    lemma_theight_arg(tv[i].args, k);
}

/// The edges contributed by the `i`-th registry entry: one to each of
/// its immediate arguments, in argument order.
pub open spec fn row(tv: Seq<TermView>, i: int) -> Seq<(int, int)> {
    Seq::new(tv[i].args.len(), |k: int| (i, child_idx(tv, i, k)))
}

/// The edges of the first `i` registry entries, in insertion order.
pub open spec fn edges_upto(tv: Seq<TermView>, i: int) -> Seq<(int, int)>
    decreases i,
{
    if i <= 0 {
        Seq::empty()
    } else {
        edges_upto(tv, i - 1) + row(tv, i - 1)
    }
}

/// The full edge list of the subterm DAG of a registry.
pub open spec fn expected_edges(tv: Seq<TermView>) -> Seq<(int, int)> {
    edges_upto(tv, tv.len() as int)
}

/// Every edge of a well-formed registry's DAG joins in-range nodes and
/// strictly lowers the height.
pub open spec fn edges_wf(tv: Seq<TermView>, edges: Seq<(int, int)>) -> bool {
    forall|p: int|
        0 <= p < edges.len() ==> 0 <= (#[trigger] edges[p]).0 < tv.len() && 0 <= edges[p].1
            < tv.len() && theight(tv[edges[p].1]) < theight(tv[edges[p].0])
}

/// Along height-lowering edges, any path of whatever length lowers the
/// height, so no path returns to its start.
pub proof fn lemma_reach_height(
    tv: Seq<TermView>,
    edges: Seq<(int, int)>,
    x: int,
    y: int,
    fuel: nat,
)
    requires
        edges_wf(tv, edges),
        reaches_n(edges, x, y, fuel),
        x != y,
    ensures
        0 <= x < tv.len(),
        0 <= y < tv.len(),
        theight(tv[y]) < theight(tv[x]),
    decreases fuel,
{
    let j = choose|j: int|
        #[trigger] edges.contains((x, j)) && reaches_n(edges, j, y, (fuel - 1) as nat);
    let p = choose|p: int| 0 <= p < edges.len() && edges[p] == (x, j);
    assert(0 <= x < tv.len() && 0 <= j < tv.len() && theight(tv[j]) < theight(tv[x]));
    if j != y {
        lemma_reach_height(tv, edges, j, y, (fuel - 1) as nat);
    }
}

/// A walk of the edges of `a + b` visits the later part `b` first.
pub proof fn lemma_targets_concat(a: Seq<(int, int)>, b: Seq<(int, int)>, n: int)
    ensures
        targets_from(a + b, n) =~= targets_from(b, n) + targets_from(a, n),
        sources_into(a + b, n) =~= sources_into(b, n) + sources_into(a, n),
    decreases b.len(),
{
    if b.len() == 0 {
        assert(a + b =~= a);
    } else {
        lemma_targets_concat(a, b.drop_last(), n);
        assert((a + b).last() == b.last());
        assert((a + b).drop_last() =~= a + b.drop_last());
    }
}

/// On the row of a single entry the walk yields that entry's argument
/// indices in reverse argument order, and nothing for any other node.
pub proof fn lemma_row_targets(tv: Seq<TermView>, i: int, n: int, m: int)
    requires
        0 <= i < tv.len(),
        0 <= m <= tv[i].args.len(),
    ensures
        n == i ==> targets_from(row(tv, i).take(m), n).len() == m && forall|p: int|
            0 <= p < m ==> targets_from(row(tv, i).take(m), n)[p] == child_idx(tv, i, m - 1 - p),
        n != i ==> targets_from(row(tv, i).take(m), n) =~= Seq::<int>::empty(),
    decreases m,
{
    if m > 0 {
        lemma_row_targets(tv, i, n, m - 1);
        let s = row(tv, i).take(m);
        assert(s.last() == (i, child_idx(tv, i, m - 1)));
        assert(s.drop_last() =~= row(tv, i).take(m - 1));
    }
}

/// The children the DAG reports for node `i` are exactly the argument
/// indices of entry `i`, in reverse argument order, and other rows
/// contribute nothing.
pub proof fn lemma_children_are_args(tv: Seq<TermView>, i: int, m: int)
    requires
        0 <= i < tv.len(),
        0 <= m <= tv.len(),
    ensures
        m <= i ==> targets_from(edges_upto(tv, m), i) =~= Seq::<int>::empty(),
        m > i ==> targets_from(edges_upto(tv, m), i).len() == tv[i].args.len() && forall|p: int|
            0 <= p < tv[i].args.len() ==> targets_from(edges_upto(tv, m), i)[p] == child_idx(
                tv,
                i,
                tv[i].args.len() - 1 - p,
            ),
    decreases m,
{
    if m > 0 {
        lemma_children_are_args(tv, i, m - 1);
        lemma_targets_concat(edges_upto(tv, m - 1), row(tv, m - 1), i);
        assert(row(tv, m - 1).take(tv[m - 1].args.len() as int) =~= row(tv, m - 1));
        lemma_row_targets(tv, m - 1, i, tv[m - 1].args.len() as int);
        if m - 1 == i {
            assert(targets_from(edges_upto(tv, m), i) =~= targets_from(row(tv, i), i)
                + targets_from(edges_upto(tv, m - 1), i));
            assert(targets_from(edges_upto(tv, m), i) =~= targets_from(row(tv, i), i));
        } else {
            assert(targets_from(edges_upto(tv, m), i) =~= targets_from(edges_upto(tv, m - 1), i));
        }
    }
}

/// Every node the DAG reports as a parent of `n` is the source of an
/// edge into `n`.
pub proof fn lemma_sources_are_edges(edges: Seq<(int, int)>, n: int)
    ensures
        forall|p: int|
            0 <= p < sources_into(edges, n).len() ==> edges.contains(
                (#[trigger] sources_into(edges, n)[p], n),
            ),
    decreases edges.len(),
{
    if edges.len() > 0 {
        lemma_sources_are_edges(edges.drop_last(), n);
        assert forall|p: int| 0 <= p < sources_into(edges, n).len() implies edges.contains(
            (#[trigger] sources_into(edges, n)[p], n),
        ) by {
            let x = sources_into(edges, n)[p];
            if edges.last().1 == n && p == 0 {
                assert(edges.last() == (x, n));
                assert(edges[edges.len() - 1] == (x, n));
            } else {
                let q = if edges.last().1 == n {
                    p - 1
                } else {
                    p
                };
                assert(sources_into(edges.drop_last(), n)[q] == x);
                assert(edges.drop_last().contains((x, n)));
                let w = choose|w: int|
                    0 <= w < edges.drop_last().len() && edges.drop_last()[w] == (x, n);
                assert(edges[w] == (x, n));
            }
        }
    }
}

/// Conversely, the source of every edge into `n` is among the parents
/// the DAG reports for `n`: the parent walk is exhaustive.
pub proof fn lemma_edges_have_sources(edges: Seq<(int, int)>, n: int)
    ensures
        forall|p: int| edges.contains((p, n)) ==> sources_into(edges, n).contains(p),
    decreases edges.len(),
{
    if edges.len() > 0 {
        lemma_edges_have_sources(edges.drop_last(), n);
        assert forall|p: int| edges.contains((p, n)) implies sources_into(edges, n).contains(
            p,
        ) by {
            let w = choose|w: int| 0 <= w < edges.len() && edges[w] == (p, n);
            if w == edges.len() - 1 {
                assert(edges.last() == (p, n));
                assert(sources_into(edges, n)[0] == p);
            } else {
                assert(edges.drop_last()[w] == (p, n));
                assert(edges.drop_last().contains((p, n)));
                assert(sources_into(edges.drop_last(), n).contains(p));
                let q = choose|q: int|
                    0 <= q < sources_into(edges.drop_last(), n).len() && sources_into(
                        edges.drop_last(),
                        n,
                    )[q] == p;
                if edges.last().1 == n {
                    assert(sources_into(edges, n)[q + 1] == p);
                } else {
                    assert(sources_into(edges, n)[q] == p);
                }
            }
        }
    }
}

/// Every argument edge of every entry below `m` stands in the edge list.
pub proof fn lemma_row_edge_present(tv: Seq<TermView>, p: int, k: int, m: int)
    requires
        0 <= p < m <= tv.len(),
        0 <= k < tv[p].args.len(),
    ensures
        edges_upto(tv, m).contains((p, child_idx(tv, p, k))),
    decreases m,
{
    if m - 1 == p {
        let pre = edges_upto(tv, m - 1);
        assert(edges_upto(tv, m)[pre.len() + k] == row(tv, p)[k]);
        assert(row(tv, p)[k] == (p, child_idx(tv, p, k)));
    } else {
        lemma_row_edge_present(tv, p, k, m - 1);
        let pre = edges_upto(tv, m - 1);
        let w = choose|w: int| 0 <= w < pre.len() && pre[w] == (p, child_idx(tv, p, k));
        assert(edges_upto(tv, m)[w] == (p, child_idx(tv, p, k)));
    }
}

/// Edge count of the first `i` rows: the argument positions of the
/// first `i` entries.
pub proof fn lemma_edges_upto_len(tv: Seq<TermView>, i: int)
    requires
        0 <= i <= tv.len(),
    ensures
        edges_upto(tv, i).len() == arity_sum(tv.take(i)),
    decreases i,
{
    if i > 0 {
        lemma_edges_upto_len(tv, i - 1);
        assert(tv.take(i).drop_last() =~= tv.take(i - 1));
        assert(tv.take(i).last() == tv[i - 1]);
    }
}

/// `arity_sum` of a prefix is at most that of the whole.
pub proof fn lemma_arity_sum_prefix(tv: Seq<TermView>, i: int)
    requires
        0 <= i <= tv.len(),
    ensures
        arity_sum(tv.take(i)) <= arity_sum(tv),
{
    lemma_arity_sum_concat(tv.take(i), tv.skip(i));
    assert(tv.take(i) + tv.skip(i) =~= tv);
}

/// The DAG of a well-formed registry has only in-range, height-lowering
/// edges.
pub proof fn lemma_edges_upto_wf(tv: Seq<TermView>, m: int)
    requires
        registry_wf(tv),
        0 <= m <= tv.len(),
    ensures
        edges_wf(tv, edges_upto(tv, m)),
    decreases m,
{
    if m > 0 {
        lemma_edges_upto_wf(tv, m - 1);
        let pre = edges_upto(tv, m - 1);
        let full = edges_upto(tv, m);
        assert forall|p: int| 0 <= p < full.len() implies 0 <= (#[trigger] full[p]).0 < tv.len()
            && 0 <= full[p].1 < tv.len() && theight(tv[full[p].1]) < theight(tv[full[p].0]) by {
            if p < pre.len() {
                assert(full[p] == pre[p]);
            } else {
                let k = p - pre.len();
                assert(full[p] == row(tv, m - 1)[k]);
                lemma_child_idx(tv, m - 1, k);
            }
        }
    }
}

/// Build the subterm DAG of a registry: one node per entry, and an edge
/// from every entry to each of its immediate arguments, argument order
/// preserved.
pub(crate) fn build_dag(terms: &Vec<Term>) -> (d: SubtermDag)
    requires
        registry_wf(views_of(terms@)),
        views_of(terms@).len() < 0xFFFF_FFFFnat,
        arity_sum(views_of(terms@)) < 0xFFFF_FFFFnat,
    ensures
        dag_node_count(d) == views_of(terms@).len(),
        dag_edges(d) == expected_edges(views_of(terms@)),
{
    let ghost tv = views_of(terms@);
    proof {
        lemma_views_of(terms@);
    }
    let n = terms.len();
    let mut d = dag_new();
    let mut i: usize = 0;
    while i < n
        invariant
            n == terms@.len(),
            tv == views_of(terms@),
            n == tv.len(),
            tv.len() < 0xFFFF_FFFFnat,
            i <= n,
            dag_node_count(d) == i,
            dag_edges(d) == Seq::<(int, int)>::empty(),
        decreases n - i,
    {
        let _ = dag_add_node(&mut d);
        i = i + 1;
    }
    let mut i: usize = 0;
    proof {
        assert(edges_upto(tv, 0) =~= Seq::<(int, int)>::empty());
    }
    while i < n
        invariant
            n == terms@.len(),
            tv == views_of(terms@),
            registry_wf(tv),
            n == tv.len(),
            tv.len() < 0xFFFF_FFFFnat,
            arity_sum(tv) < 0xFFFF_FFFFnat,
            i <= n,
            dag_node_count(d) == n,
            dag_edges(d) == edges_upto(tv, i as int),
            edges_wf(tv, dag_edges(d)),
        decreases n - i,
    {
        proof {
            lemma_views_of(terms@);
        }
        let na = terms[i].arguments.len();
        let mut k: usize = 0;
        proof {
            crate::term::lemma_views_of(terms@[i as int].arguments@);
            assert(tv[i as int].args.len() == na);
            assert(edges_upto(tv, i as int) + row(tv, i as int).take(0) =~= edges_upto(
                tv,
                i as int,
            ));
        }
        while k < na
            invariant
                n == terms@.len(),
                tv == views_of(terms@),
                registry_wf(tv),
                n == tv.len(),
                tv.len() < 0xFFFF_FFFFnat,
                arity_sum(tv) < 0xFFFF_FFFFnat,
                i < n,
                na == terms@[i as int].arguments@.len(),
                na == tv[i as int].args.len(),
                k <= na,
                dag_node_count(d) == n,
                dag_edges(d) == edges_upto(tv, i as int) + row(tv, i as int).take(k as int),
                edges_wf(tv, dag_edges(d)),
            decreases na - k,
        {
            proof {
                lemma_views_of(terms@);
                crate::term::lemma_views_of(terms@[i as int].arguments@);
                assert(terms@[i as int].arguments@[k as int]@ == tv[i as int].args[k as int]);
                lemma_child_idx(tv, i as int, k as int);
            }
            let arg = &terms[i].arguments[k];
            let j = position_of_term(terms, arg);
            proof {
                assert(views_of(terms@)[j as int] == tv[i as int].args[k as int]);
                assert(tv[child_idx(tv, i as int, k as int)] == tv[i as int].args[k as int]);
                assert(j as int == child_idx(tv, i as int, k as int)) by {
                    let c = child_idx(tv, i as int, k as int);
                    if j as int != c {
                        assert(tv[j as int] == tv[c]);
                        assert(!tv.no_duplicates());
                    }
                }
                lemma_edges_upto_len(tv, i as int);
                lemma_arity_sum_prefix(tv, i as int);
                assert(row(tv, i as int).take(k as int).len() == k);
                assert(arity_sum(tv.take(i as int)) + na <= arity_sum(tv)) by {
                    assert(arity_sum(tv.take(i as int + 1)) == arity_sum(tv.take(i as int))
                        + na) by {
                        assert(tv.take(i as int + 1).drop_last() =~= tv.take(i as int));
                        assert(tv.take(i as int + 1).last() == tv[i as int]);
                    }
                    lemma_arity_sum_prefix(tv, i as int + 1);
                }
            }
            let ghost edges0 = dag_edges(d);
            proof {
                assert forall|fuel: nat| !reaches_n(edges0, j as int, i as int, fuel) by {
                    if reaches_n(edges0, j as int, i as int, fuel) {
                        assert(theight(tv[j as int]) < theight(tv[i as int]));
                        if j as int != i as int {
                            lemma_reach_height(tv, edges0, j as int, i as int, fuel);
                        }
                    }
                }
            }
            let ok = dag_add_edge(&mut d, i, j);
            if !ok {
                proof {
                    assert(reaches(edges0, j as int, i as int));
                    let fuel = choose|fuel: nat| reaches_n(edges0, j as int, i as int, fuel);
                    assert(false);
                }
            }
            proof {
                assert(row(tv, i as int).take(k as int + 1) =~= row(tv, i as int).take(
                    k as int,
                ).push((i as int, j as int)));
                assert(dag_edges(d) =~= edges_upto(tv, i as int) + row(tv, i as int).take(
                    k as int + 1,
                ));
            }
            k = k + 1;
        }
        proof {
            assert(row(tv, i as int).take(na as int) =~= row(tv, i as int));
            assert(dag_edges(d) =~= edges_upto(tv, i as int + 1));
        }
        i = i + 1;
    }
    proof {
        assert(edges_upto(tv, n as int) == expected_edges(tv));
    }
    d
}

} // verus!
