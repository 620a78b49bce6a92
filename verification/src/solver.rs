//! The congruence-closure engine and satisfiability checker: one solving
//! session owns the relation batch, the subterm registry, the subterm
//! DAG and the equivalence partition; merging consumes the equalities
//! and propagates congruences, and the verdict checks the disequalities
//! against the closed partition.

use vstd::prelude::*;

use crate::closure::in_cc;
use crate::closure::lemma_cc_base;
use crate::closure::lemma_cc_cong;
use crate::closure::lemma_cc_refl;
use crate::closure::lemma_cc_squash;
use crate::closure::lemma_cc_sym;
use crate::closure::lemma_cc_trans;
use crate::graph::SubtermDag;
use crate::graph::build_dag;
use crate::graph::child_idx;
use crate::graph::dag_children;
use crate::graph::dag_edges;
use crate::graph::dag_node_count;
use crate::graph::dag_parents;
use crate::graph::edges_wf;
use crate::graph::expected_edges;
use crate::graph::lemma_children_are_args;
use crate::graph::lemma_edges_have_sources;
use crate::graph::lemma_edges_upto_wf;
use crate::graph::lemma_sources_are_edges;
use crate::graph::seq_int;
use crate::graph::sources_into;
use crate::graph::targets_from;
use crate::registry::batch_trav;
use crate::registry::compute_subterms;
use crate::registry::dedup;
use crate::registry::lemma_batch_arity;
use crate::registry::lemma_batch_trav_closed;
use crate::registry::lemma_dedup;
use crate::registry::lemma_index_of;
use crate::registry::lemma_unique_position;
use crate::registry::position_of_term;
use crate::registry::registry_wf;
use crate::registry::rel_views;
use crate::term::Kind;
use crate::term::Relation;
use crate::term::RelationView;
use crate::term::Term;
use crate::term::TermView;
use crate::term::arity_sum;
use crate::term::render;
use crate::term::lemma_views_of;
use crate::term::views_of;
use crate::uf::Partition;
use crate::uf::class_count;
use crate::uf::lemma_union_count;
use crate::uf::lemma_union_join;
use crate::uf::same_class;
use crate::uf::uf_find;
use crate::uf::uf_model;
use crate::uf::uf_new;
use crate::uf::uf_union;

verus! {

/// Are the registry entries `i` and `j` congruent under the partition
/// `m`: same symbol, same arity, and every pair of corresponding
/// arguments in one class?
pub open spec fn congruent_spec(tv: Seq<TermView>, m: Seq<int>, i: int, j: int) -> bool {
    &&& tv[i].name == tv[j].name
    &&& tv[i].args.len() == tv[j].args.len()
    &&& forall|k: int|
        0 <= k < tv[i].args.len() ==> same_class(
            m,
            #[trigger] child_idx(tv, i, k),
            child_idx(tv, j, k),
        )
}

/// The input equalities of a batch, as a relation over registry indices.
pub open spec fn eq_base_of(tv: Seq<TermView>, rs: Seq<RelationView>) -> spec_fn(int, int) -> bool {
    |x: int, y: int|
        exists|j: int|
            0 <= j < rs.len() && (#[trigger] rs[j]).kind is Equal && x == tv.index_of(rs[j].left)
                && y == tv.index_of(rs[j].right)
}

/// One partition joins, as a base relation: everything the partition
/// `m` already relates, and the one pair `(a, b)`.
pub open spec fn merged_base(m: Seq<int>, a: int, b: int) -> spec_fn(int, int) -> bool {
    |x: int, y: int|
        (0 <= x < m.len() && 0 <= y < m.len() && same_class(m, x, y)) || (x == a && y == b)
}

/// Indices of the relations of kind `kd` among the first `n`, in input
/// order.
pub open spec fn kind_indices(rs: Seq<RelationView>, kd: Kind, n: int) -> Seq<int>
    decreases n,
{
    if n <= 0 {
        Seq::empty()
    } else {
        kind_indices(rs, kd, n - 1) + if rs[n - 1].kind == kd {
            seq![n - 1]
        } else {
            Seq::empty()
        }
    }
}

/// `kind_indices` holds exactly the in-range indices of that kind.
pub proof fn lemma_kind_indices(rs: Seq<RelationView>, kd: Kind, n: int)
    requires
        0 <= n <= rs.len(),
    ensures
        forall|j: int|
            kind_indices(rs, kd, n).contains(j) <==> 0 <= j < n && rs[j].kind == kd,
    decreases n,
{
    if n > 0 {
        lemma_kind_indices(rs, kd, n - 1);
        let pre = kind_indices(rs, kd, n - 1);
        let full = kind_indices(rs, kd, n);
        assert forall|j: int| full.contains(j) implies 0 <= j < n && rs[j].kind == kd by {
            let p = choose|p: int| 0 <= p < full.len() && full[p] == j;
            if p < pre.len() {
                assert(pre[p] == j);
                assert(pre.contains(j));
            } else {
                assert(rs[n - 1].kind == kd);
                assert(j == n - 1);
            }
        }
        assert forall|j: int| 0 <= j < n && rs[j].kind == kd implies full.contains(j) by {
            if j < n - 1 {
                assert(pre.contains(j));
                let p = choose|p: int| 0 <= p < pre.len() && pre[p] == j;
                assert(full[p] == j);
            } else {
                assert(full[full.len() - 1] == j);
            }
        }
    }
}

/// Closure transport: a pair in the congruence closure of one batch is
/// in the closure of a batch holding the same relations over a registry
/// holding the same terms, at the indices of the same two terms.
proof fn lemma_cc_transport(
    tv1: Seq<TermView>,
    rs1: Seq<RelationView>,
    tv2: Seq<TermView>,
    rs2: Seq<RelationView>,
    x: int,
    y: int,
)
    requires
        registry_wf(tv1),
        registry_wf(tv2),
        forall|t: TermView| tv1.contains(t) <==> tv2.contains(t),
        rs1.to_multiset() == rs2.to_multiset(),
        forall|j: int|
            0 <= j < rs1.len() ==> tv1.contains((#[trigger] rs1[j]).left) && tv1.contains(
                rs1[j].right,
            ),
        forall|j: int|
            0 <= j < rs2.len() ==> tv2.contains((#[trigger] rs2[j]).left) && tv2.contains(
                rs2[j].right,
            ),
        0 <= x < tv1.len(),
        0 <= y < tv1.len(),
        in_cc(tv1, eq_base_of(tv1, rs1), x, y),
    ensures
        in_cc(tv2, eq_base_of(tv2, rs2), tv2.index_of(tv1[x]), tv2.index_of(tv1[y])),
{
    let b1 = eq_base_of(tv1, rs1);
    let b2 = eq_base_of(tv2, rs2);
    rs1.to_multiset_ensures();
    rs2.to_multiset_ensures();
    assert forall|r2: spec_fn(int, int) -> bool| #[trigger] crate::closure::cc_closed(
        tv2,
        b2,
        r2,
    ) implies r2(tv2.index_of(tv1[x]), tv2.index_of(tv1[y])) by {
        let r1 = (|u: int, v: int| r2(tv2.index_of(tv1[u]), tv2.index_of(tv1[v])));
        assert(crate::closure::equiv_rel(tv1.len() as int, r1)) by {
            assert forall|u: int| 0 <= u < tv1.len() as int implies #[trigger] r1(u, u) by {
                assert(tv1.contains(tv1[u]));
                assert(tv2.contains(tv1[u]));
                lemma_index_of(tv2, tv1[u]);
                assert(r2(tv2.index_of(tv1[u]), tv2.index_of(tv1[u])));
            }
            assert forall|u: int, v: int| #[trigger] r1(u, v) implies r1(v, u) by {
                assert(r2(tv2.index_of(tv1[u]), tv2.index_of(tv1[v])));
                assert(r2(tv2.index_of(tv1[v]), tv2.index_of(tv1[u])));
            }
            assert forall|u: int, v: int, w: int|
                #![trigger r1(u, v), r1(v, w)]
                r1(u, v) && r1(v, w) implies r1(u, w) by {
                assert(r2(tv2.index_of(tv1[u]), tv2.index_of(tv1[v])));
                assert(r2(tv2.index_of(tv1[v]), tv2.index_of(tv1[w])));
                assert(r2(tv2.index_of(tv1[u]), tv2.index_of(tv1[w])));
            }
        }
        assert(crate::closure::respects_congruence(tv1, r1)) by {
            assert forall|i: int, j: int|
                0 <= i < tv1.len() && 0 <= j < tv1.len() && tv1[i].name == tv1[j].name
                    && tv1[i].args.len() == tv1[j].args.len() && (forall|k: int|
                    0 <= k < tv1[i].args.len() ==> #[trigger] r1(
                        child_idx(tv1, i, k),
                        child_idx(tv1, j, k),
                    )) implies #[trigger] r1(i, j) by {
                assert(tv2.contains(tv1[i]));
                assert(tv2.contains(tv1[j]));
                lemma_index_of(tv2, tv1[i]);
                lemma_index_of(tv2, tv1[j]);
                let ti = tv2.index_of(tv1[i]);
                let tj = tv2.index_of(tv1[j]);
                assert(tv2[ti] == tv1[i]);
                assert(tv2[tj] == tv1[j]);
                assert forall|k: int| 0 <= k < tv2[ti].args.len() implies #[trigger] r2(
                    child_idx(tv2, ti, k),
                    child_idx(tv2, tj, k),
                ) by {
                    crate::graph::lemma_child_idx(tv1, i, k);
                    crate::graph::lemma_child_idx(tv1, j, k);
                    crate::graph::lemma_child_idx(tv2, ti, k);
                    crate::graph::lemma_child_idx(tv2, tj, k);
                    let c1i = child_idx(tv1, i, k);
                    let c1j = child_idx(tv1, j, k);
                    assert(tv2.contains(tv1[c1i]));
                    assert(tv2.contains(tv1[c1j]));
                    lemma_index_of(tv2, tv1[c1i]);
                    lemma_index_of(tv2, tv1[c1j]);
                    assert(child_idx(tv2, ti, k) == tv2.index_of(tv1[c1i])) by {
                        assert(tv2[child_idx(tv2, ti, k)] == tv2[ti].args[k]);
                        assert(tv2[ti].args[k] == tv1[i].args[k]);
                        assert(tv1[c1i] == tv1[i].args[k]);
                        assert(tv2[tv2.index_of(tv1[c1i])] == tv1[c1i]);
                        lemma_unique_position(
                            tv2,
                            child_idx(tv2, ti, k),
                            tv2.index_of(tv1[c1i]),
                        );
                    }
                    assert(child_idx(tv2, tj, k) == tv2.index_of(tv1[c1j])) by {
                        assert(tv2[child_idx(tv2, tj, k)] == tv2[tj].args[k]);
                        assert(tv2[tj].args[k] == tv1[j].args[k]);
                        assert(tv1[c1j] == tv1[j].args[k]);
                        assert(tv2[tv2.index_of(tv1[c1j])] == tv1[c1j]);
                        lemma_unique_position(
                            tv2,
                            child_idx(tv2, tj, k),
                            tv2.index_of(tv1[c1j]),
                        );
                    }
                    assert(r1(c1i, c1j));
                }
                assert(r2(ti, tj));
            }
        }
        assert(crate::closure::above(b1, r1)) by {
            assert forall|u: int, v: int| #[trigger] b1(u, v) implies r1(u, v) by {
                let j = choose|j: int|
                    0 <= j < rs1.len() && (#[trigger] rs1[j]).kind is Equal && u == tv1.index_of(
                        rs1[j].left,
                    ) && v == tv1.index_of(rs1[j].right);
                assert(rs1.contains(rs1[j]));
                assert(rs1.to_multiset().count(rs1[j]) > 0);
                assert(rs2.to_multiset().count(rs1[j]) > 0);
                assert(rs2.contains(rs1[j]));
                let j2 = choose|j2: int| 0 <= j2 < rs2.len() && rs2[j2] == rs1[j];
                lemma_index_of(tv1, rs1[j].left);
                lemma_index_of(tv1, rs1[j].right);
                assert(tv1[u] == rs1[j].left);
                assert(tv1[v] == rs1[j].right);
                assert(b2(tv2.index_of(tv1[u]), tv2.index_of(tv1[v]))) by {
                    assert(0 <= j2 < rs2.len() && rs2[j2].kind is Equal && tv2.index_of(tv1[u])
                        == tv2.index_of(rs2[j2].left) && tv2.index_of(tv1[v]) == tv2.index_of(
                        rs2[j2].right,
                    ));
                }
                assert(r2(tv2.index_of(tv1[u]), tv2.index_of(tv1[v])));
            }
        }
        assert(crate::closure::cc_closed(tv1, b1, r1));
        assert(r1(x, y));
    }
}

/// Order independence: over two registries holding the same distinct
/// subterms, the congruence closures of two batches holding the same
/// relations, in whatever order, relate the indices of the same two
/// terms alike. Since `check_satisfiable` pins each session's final
/// classes to exactly this closure, two sessions over permuted batches
/// end with the identical partition of the identical set of subterms.
pub proof fn lemma_closure_order_independent(
    tv1: Seq<TermView>,
    rs1: Seq<RelationView>,
    tv2: Seq<TermView>,
    rs2: Seq<RelationView>,
    x: int,
    y: int,
)
    requires
        registry_wf(tv1),
        registry_wf(tv2),
        forall|t: TermView| tv1.contains(t) <==> tv2.contains(t),
        rs1.to_multiset() == rs2.to_multiset(),
        forall|j: int|
            0 <= j < rs1.len() ==> tv1.contains((#[trigger] rs1[j]).left) && tv1.contains(
                rs1[j].right,
            ),
        forall|j: int|
            0 <= j < rs2.len() ==> tv2.contains((#[trigger] rs2[j]).left) && tv2.contains(
                rs2[j].right,
            ),
        0 <= x < tv1.len(),
        0 <= y < tv1.len(),
    ensures
        in_cc(tv1, eq_base_of(tv1, rs1), x, y) <==> in_cc(
            tv2,
            eq_base_of(tv2, rs2),
            tv2.index_of(tv1[x]),
            tv2.index_of(tv1[y]),
        ),
{
    assert(tv2.contains(tv1[x]));
    assert(tv2.contains(tv1[y]));
    lemma_index_of(tv2, tv1[x]);
    lemma_index_of(tv2, tv1[y]);
    let tx = tv2.index_of(tv1[x]);
    let ty = tv2.index_of(tv1[y]);
    if in_cc(tv1, eq_base_of(tv1, rs1), x, y) {
        lemma_cc_transport(tv1, rs1, tv2, rs2, x, y);
    }
    if in_cc(tv2, eq_base_of(tv2, rs2), tx, ty) {
        lemma_cc_transport(tv2, rs2, tv1, rs1, tx, ty);
        assert(tv1.contains(tv2[tx]));
        assert(tv1.contains(tv2[ty]));
        lemma_index_of(tv1, tv2[tx]);
        lemma_index_of(tv1, tv2[ty]);
        assert(tv1.index_of(tv2[tx]) == x) by {
            assert(tv2[tx] == tv1[x]);
            lemma_unique_position(tv1, tv1.index_of(tv2[tx]), x);
        }
        assert(tv1.index_of(tv2[ty]) == y) by {
            assert(tv2[ty] == tv1[y]);
            lemma_unique_position(tv1, tv1.index_of(tv2[ty]), y);
        }
    }
}

/// Permutation invariance of the result: when each final partition
/// relates two subterms exactly when the congruence closure of its
/// batch does, two batches holding the same relations, in whatever
/// order, fail the same disequalities, so the two verdicts are equal.
pub proof fn lemma_verdict_order_independent(
    tv1: Seq<TermView>,
    rs1: Seq<RelationView>,
    m1: Seq<int>,
    tv2: Seq<TermView>,
    rs2: Seq<RelationView>,
    m2: Seq<int>,
    r1: bool,
    r2: bool,
)
    requires
        registry_wf(tv1),
        registry_wf(tv2),
        forall|t: TermView| tv1.contains(t) <==> tv2.contains(t),
        rs1.to_multiset() == rs2.to_multiset(),
        forall|j: int|
            0 <= j < rs1.len() ==> tv1.contains((#[trigger] rs1[j]).left) && tv1.contains(
                rs1[j].right,
            ),
        forall|j: int|
            0 <= j < rs2.len() ==> tv2.contains((#[trigger] rs2[j]).left) && tv2.contains(
                rs2[j].right,
            ),
        m1.len() == tv1.len(),
        m2.len() == tv2.len(),
        forall|x: int, y: int|
            0 <= x < tv1.len() && 0 <= y < tv1.len() ==> (#[trigger] same_class(m1, x, y) <==> in_cc(
                tv1,
                eq_base_of(tv1, rs1),
                x,
                y,
            )),
        forall|x: int, y: int|
            0 <= x < tv2.len() && 0 <= y < tv2.len() ==> (#[trigger] same_class(m2, x, y) <==> in_cc(
                tv2,
                eq_base_of(tv2, rs2),
                x,
                y,
            )),
        r1 == (forall|j: int|
            0 <= j < rs1.len() && (#[trigger] rs1[j]).kind is NotEqual ==> !same_class(
                m1,
                tv1.index_of(rs1[j].left),
                tv1.index_of(rs1[j].right),
            )),
        r2 == (forall|j: int|
            0 <= j < rs2.len() && (#[trigger] rs2[j]).kind is NotEqual ==> !same_class(
                m2,
                tv2.index_of(rs2[j].left),
                tv2.index_of(rs2[j].right),
            )),
    ensures
        r1 == r2,
{
    rs1.to_multiset_ensures();
    rs2.to_multiset_ensures();
    if !r1 {
        let j = choose|j: int|
            !(0 <= j < rs1.len() && (#[trigger] rs1[j]).kind is NotEqual ==> !same_class(
                m1,
                tv1.index_of(rs1[j].left),
                tv1.index_of(rs1[j].right),
            ));
        lemma_index_of(tv1, rs1[j].left);
        lemma_index_of(tv1, rs1[j].right);
        let u = tv1.index_of(rs1[j].left);
        let v = tv1.index_of(rs1[j].right);
        assert(in_cc(tv1, eq_base_of(tv1, rs1), u, v));
        lemma_closure_order_independent(tv1, rs1, tv2, rs2, u, v);
        assert(rs1.contains(rs1[j]));
        assert(rs1.to_multiset().count(rs1[j]) > 0);
        assert(rs2.to_multiset().count(rs1[j]) > 0);
        assert(rs2.contains(rs1[j]));
        let j2 = choose|j2: int| 0 <= j2 < rs2.len() && rs2[j2] == rs1[j];
        assert(tv1[u] == rs1[j].left && tv1[v] == rs1[j].right);
        assert(tv2.index_of(tv1[u]) == tv2.index_of(rs2[j2].left));
        assert(tv2.index_of(tv1[v]) == tv2.index_of(rs2[j2].right));
        assert(tv2.contains(rs2[j2].left));
        assert(tv2.contains(rs2[j2].right));
        lemma_index_of(tv2, rs2[j2].left);
        lemma_index_of(tv2, rs2[j2].right);
        assert(same_class(m2, tv2.index_of(rs2[j2].left), tv2.index_of(rs2[j2].right)));
        assert(!r2);
    }
    if !r2 {
        let j = choose|j: int|
            !(0 <= j < rs2.len() && (#[trigger] rs2[j]).kind is NotEqual ==> !same_class(
                m2,
                tv2.index_of(rs2[j].left),
                tv2.index_of(rs2[j].right),
            ));
        lemma_index_of(tv2, rs2[j].left);
        lemma_index_of(tv2, rs2[j].right);
        let u = tv2.index_of(rs2[j].left);
        let v = tv2.index_of(rs2[j].right);
        assert(in_cc(tv2, eq_base_of(tv2, rs2), u, v));
        lemma_closure_order_independent(tv2, rs2, tv1, rs1, u, v);
        assert(rs2.contains(rs2[j]));
        assert(rs2.to_multiset().count(rs2[j]) > 0);
        assert(rs1.to_multiset().count(rs2[j]) > 0);
        assert(rs1.contains(rs2[j]));
        let j2 = choose|j2: int| 0 <= j2 < rs1.len() && rs1[j2] == rs2[j];
        assert(tv2[u] == rs2[j].left && tv2[v] == rs2[j].right);
        assert(tv1.index_of(tv2[u]) == tv1.index_of(rs1[j2].left));
        assert(tv1.index_of(tv2[v]) == tv1.index_of(rs1[j2].right));
        assert(tv1.contains(rs1[j2].left));
        assert(tv1.contains(rs1[j2].right));
        lemma_index_of(tv1, rs1[j2].left);
        lemma_index_of(tv1, rs1[j2].right);
        assert(same_class(m1, tv1.index_of(rs1[j2].left), tv1.index_of(rs1[j2].right)));
        assert(!r1);
    }
}

/// The diagnostic line for one congruent pair of registry entries: both
/// canonical renderings, joined by a tilde.
pub open spec fn pair_text(t1: TermView, t2: TermView) -> Seq<char> {
    render(t1) + " ~ "@ + render(t2)
}

/// The diagnostic lines of the pairs `(a, b)` with `a < b < j` that are
/// congruent under `m`, in order of `b`.
pub open spec fn cong_row(tv: Seq<TermView>, m: Seq<int>, a: int, j: int) -> Seq<Seq<char>>
    decreases j - a,
{
    if j <= a + 1 {
        Seq::empty()
    } else {
        cong_row(tv, m, a, j - 1) + if congruent_spec(tv, m, a, j - 1) {
            seq![pair_text(tv[a], tv[j - 1])]
        } else {
            Seq::empty()
        }
    }
}

/// The diagnostic lines of every congruent pair whose first index is
/// below `i`, ordered by first index, then second.
pub open spec fn cong_upto(tv: Seq<TermView>, m: Seq<int>, i: int) -> Seq<Seq<char>>
    decreases i,
{
    if i <= 0 {
        Seq::empty()
    } else {
        cong_upto(tv, m, i - 1) + cong_row(tv, m, i - 1, tv.len() as int)
    }
}

/// Is the partition closed under congruence on the registry: are every
/// two entries that apply one symbol to pairwise same-class arguments
/// themselves in one class?
pub open spec fn congruence_closed(tv: Seq<TermView>, m: Seq<int>) -> bool {
    forall|i: int, j: int|
        0 <= i < tv.len() && 0 <= j < tv.len() && #[trigger] congruent_spec(tv, m, i, j)
            ==> same_class(m, i, j)
}

/// Congruence soundness of a closed partition: for two applications of
/// one symbol present in the registry whose corresponding arguments all
/// ended in one class, the applications share a class. The check's
/// merging leaves the partition congruence-closed, so this holds of
/// every partition it produces.
pub proof fn lemma_congruence_soundness(tv: Seq<TermView>, m: Seq<int>, i: int, j: int)
    requires
        congruence_closed(tv, m),
        0 <= i < tv.len(),
        0 <= j < tv.len(),
        tv[i].name == tv[j].name,
        tv[i].args.len() == tv[j].args.len(),
        forall|k: int|
            0 <= k < tv[i].args.len() ==> same_class(
                m,
                #[trigger] child_idx(tv, i, k),
                child_idx(tv, j, k),
            ),
    ensures
        same_class(m, i, j),
{
    assert(congruent_spec(tv, m, i, j));
}

/// Does the work list hold the pair, in either orientation?
pub open spec fn covers(pending: Seq<(usize, usize)>, p: int, q: int) -> bool {
    exists|idx: int|
        0 <= idx < pending.len() && (((#[trigger] pending[idx]).0 as int == p && pending[idx].1
            as int == q) || (pending[idx].0 as int == q && pending[idx].1 as int == p))
}

/// One examined parent pair is settled: not congruent, already in one
/// class, or on the work list.
pub open spec fn pair_settled(
    tv: Seq<TermView>,
    m: Seq<int>,
    pending: Seq<(usize, usize)>,
    p: int,
    q: int,
) -> bool {
    !congruent_spec(tv, m, p, q) || same_class(m, p, q) || covers(pending, p, q)
}

/// Does the sequence hold the index value?
pub open spec fn holds_val(s: Seq<usize>, p: int) -> bool {
    exists|idx: int| 0 <= idx < s.len() && ((#[trigger] s[idx]) as int) == p
}

/// Every pair congruent under `m` is either already joined or on the
/// work list: the invariant that makes the propagation complete once
/// the work list is empty.
pub open spec fn propagation_complete(
    tv: Seq<TermView>,
    m: Seq<int>,
    pending: Seq<(usize, usize)>,
) -> bool {
    forall|p: int, q: int|
        0 <= p < tv.len() && 0 <= q < tv.len() && #[trigger] congruent_spec(tv, m, p, q)
            ==> same_class(m, p, q) || covers(pending, p, q)
}

/// A fresh partition over a well-formed registry is congruence-closed:
/// two congruent entries have pairwise equal argument indices, hence
/// equal arguments, hence are one entry, since the registry repeats
/// none.
pub proof fn lemma_fresh_partition_closed(tv: Seq<TermView>)
    requires
        registry_wf(tv),
    ensures
        congruence_closed(tv, Seq::new(tv.len(), |i: int| i)),
{
    let m = Seq::new(tv.len(), |i: int| i);
    assert forall|i: int, j: int|
        0 <= i < tv.len() && 0 <= j < tv.len() && #[trigger] congruent_spec(tv, m, i, j)
        implies same_class(m, i, j) by {
        assert forall|k: int| 0 <= k < tv[i].args.len() implies tv[i].args[k] == tv[j].args[k] by {
            crate::graph::lemma_child_idx(tv, i, k);
            crate::graph::lemma_child_idx(tv, j, k);
            assert(same_class(m, child_idx(tv, i, k), child_idx(tv, j, k)));
            assert(child_idx(tv, i, k) == child_idx(tv, j, k));
        }
        assert(tv[i].args =~= tv[j].args);
        assert(tv[i] =~= tv[j]);
        crate::registry::lemma_unique_position(tv, i, j);
    }
}

/// A congruence-closed partition containing a base contains the whole
/// congruence closure of that base: the partition's class relation is
/// itself one of the closed relations the closure intersects.
pub proof fn lemma_closed_contains_closure(
    tv: Seq<TermView>,
    bse: spec_fn(int, int) -> bool,
    m: Seq<int>,
)
    requires
        registry_wf(tv),
        m.len() == tv.len(),
        congruence_closed(tv, m),
        forall|x: int, y: int|
            #[trigger] bse(x, y) ==> 0 <= x < tv.len() && 0 <= y < tv.len() && same_class(m, x, y),
    ensures
        forall|x: int, y: int|
            0 <= x < tv.len() && 0 <= y < tv.len() && #[trigger] in_cc(tv, bse, x, y)
                ==> same_class(m, x, y),
{
    let rel = (|x: int, y: int| 0 <= x < tv.len() && 0 <= y < tv.len() && same_class(m, x, y));
    assert(crate::closure::equiv_rel(tv.len() as int, rel)) by {
        assert forall|x: int| 0 <= x < tv.len() as int implies #[trigger] rel(x, x) by {}
        assert forall|x: int, y: int| #[trigger] rel(x, y) implies rel(y, x) by {}
    }
    assert(crate::closure::respects_congruence(tv, rel)) by {
        assert forall|i: int, j: int|
            0 <= i < tv.len() && 0 <= j < tv.len() && tv[i].name == tv[j].name && tv[i].args.len()
                == tv[j].args.len() && (forall|k: int|
                0 <= k < tv[i].args.len() ==> #[trigger] rel(
                    child_idx(tv, i, k),
                    child_idx(tv, j, k),
                )) implies #[trigger] rel(i, j) by {
            assert forall|k: int| 0 <= k < tv[i].args.len() implies same_class(
                m,
                #[trigger] child_idx(tv, i, k),
                child_idx(tv, j, k),
            ) by {
                assert(rel(child_idx(tv, i, k), child_idx(tv, j, k)));
            }
            assert(congruent_spec(tv, m, i, j));
        }
    }
    assert(crate::closure::above(bse, rel)) by {
        assert forall|x: int, y: int| #[trigger] bse(x, y) implies rel(x, y) by {}
    }
    assert(crate::closure::cc_closed(tv, bse, rel));
    assert forall|x: int, y: int|
        0 <= x < tv.len() && 0 <= y < tv.len() && #[trigger] in_cc(tv, bse, x, y) implies
        same_class(m, x, y) by {
        assert(rel(x, y));
    }
}

/// Unsatisfiable verdicts are forced: over a partition that joined
/// nothing beyond the congruence closure of the input equalities, if the
/// disequality check fails, then some disequality's two sides are
/// related by the congruence closure of the equalities themselves, so no
/// model of the equalities can separate them.
pub proof fn lemma_unsat_verdict_sound(
    tv: Seq<TermView>,
    rs: Seq<RelationView>,
    m: Seq<int>,
)
    requires
        m.len() == tv.len(),
        forall|j: int|
            0 <= j < rs.len() ==> tv.contains((#[trigger] rs[j]).left) && tv.contains(
                rs[j].right,
            ),
        forall|x: int, y: int|
            0 <= x < tv.len() && 0 <= y < tv.len() && #[trigger] same_class(m, x, y) ==> in_cc(
                tv,
                eq_base_of(tv, rs),
                x,
                y,
            ),
        !(forall|j: int|
            0 <= j < rs.len() && (#[trigger] rs[j]).kind is NotEqual ==> !same_class(
                m,
                tv.index_of(rs[j].left),
                tv.index_of(rs[j].right),
            )),
    ensures
        exists|j: int|
            0 <= j < rs.len() && (#[trigger] rs[j]).kind is NotEqual && in_cc(
                tv,
                eq_base_of(tv, rs),
                tv.index_of(rs[j].left),
                tv.index_of(rs[j].right),
            ),
{
    let j = choose|j: int|
        !(0 <= j < rs.len() && (#[trigger] rs[j]).kind is NotEqual ==> !same_class(
            m,
            tv.index_of(rs[j].left),
            tv.index_of(rs[j].right),
        ));
    lemma_index_of(tv, rs[j].left);
    lemma_index_of(tv, rs[j].right);
    assert(in_cc(tv, eq_base_of(tv, rs), tv.index_of(rs[j].left), tv.index_of(rs[j].right)));
}

/// One congruence-closure session: the relation batch, the registry of
/// its distinct subterms, the shared-subterm DAG, and the equivalence
/// partition that merging coarsens.
pub struct Solver {
    relations: Vec<Relation>,
    subterms: Vec<Term>,
    dag: SubtermDag,
    union_find: Partition,
}

impl Solver {
    /// The registry: every distinct subterm of the batch, by index.
    pub closed spec fn regv(self) -> Seq<TermView> {
        views_of(self.subterms@)
    }

    /// The relation batch.
    pub closed spec fn rels(self) -> Seq<RelationView> {
        rel_views(self.relations@)
    }

    /// The current partition: each registry index's class representative.
    pub closed spec fn partition(self) -> Seq<int> {
        uf_model(self.union_find)
    }

    /// The input equalities as a relation over registry indices.
    pub open spec fn eq_base(self) -> spec_fn(int, int) -> bool {
        eq_base_of(self.regv(), self.rels())
    }

    /// Well-formed session: the registry is duplicate-free and closed
    /// under arguments, it covers both sides of every relation, the DAG
    /// carries exactly the argument edges of the registry, and the
    /// partition ranges over the registry indices.
    pub closed spec fn wf(self) -> bool {
        &&& registry_wf(self.regv())
        &&& forall|j: int|
            0 <= j < self.rels().len() ==> self.regv().contains(
                (#[trigger] self.rels()[j]).left,
            ) && self.regv().contains(self.rels()[j].right)
        &&& dag_node_count(self.dag) == self.regv().len()
        &&& dag_edges(self.dag) == expected_edges(self.regv())
        &&& self.partition().len() == self.regv().len()
    }

    /// Build a session from a batch of relations: extract the registry,
    /// build the DAG, and set every subterm alone in its own class.
    pub fn from(relations: Vec<Relation>) -> (s: Solver)
        requires
            batch_trav(rel_views(relations@)).len() < 0xFFFF_FFFFnat,
        ensures
            s.wf(),
            s.rels() == rel_views(relations@),
            s.regv() == dedup(batch_trav(rel_views(relations@))),
            s.partition() == Seq::new(s.regv().len(), |i: int| i),
    {
        let ghost rvs = rel_views(relations@);
        let subterms = compute_subterms(&relations);
        let ghost tv = views_of(subterms@);
        proof {
            lemma_dedup(batch_trav(rvs));
            lemma_batch_trav_closed(rvs);
            lemma_batch_arity(rvs);
            assert(registry_wf(tv)) by {
                assert forall|i: int, k: int|
                    0 <= i < tv.len() && 0 <= k < tv[i].args.len() implies tv.contains(
                    #[trigger] tv[i].args[k],
                ) by {
                    assert(tv.contains(tv[i]));
                    assert(batch_trav(rvs).contains(tv[i]));
                    assert(batch_trav(rvs).contains(tv[i].args[k]));
                }
            }
            assert(arity_sum(tv) < 0xFFFF_FFFFnat);
        }
        let dag = build_dag(&subterms);
        let n = subterms.len();
        proof {
            lemma_views_of(subterms@);
        }
        let union_find = uf_new(n);
        let s = Solver { relations, subterms, dag, union_find };
        proof {
            assert(s.regv() == tv);
            assert forall|j: int| 0 <= j < s.rels().len() implies s.regv().contains(
                (#[trigger] s.rels()[j]).left,
            ) && s.regv().contains(s.rels()[j].right) by {
                assert(batch_trav(rvs).contains(rvs[j].left));
                assert(batch_trav(rvs).contains(rvs[j].right));
            }
        }
        s
    }
    /// Are the two nodes congruent under the current partition: same
    /// symbol, equal arity, and for every argument position the two
    /// argument nodes in one class? Always evaluated against the
    /// current, possibly partially merged, partition.
    fn congruent(&self, node1: usize, node2: usize) -> (r: bool)
        requires
            self.wf(),
            (node1 as int) < self.regv().len(),
            (node2 as int) < self.regv().len(),
        ensures
            r == congruent_spec(self.regv(), self.partition(), node1 as int, node2 as int),
    {
        let ghost tv = self.regv();
        let ghost m = self.partition();
        proof {
            lemma_views_of(self.subterms@);
        }
        if !(self.subterms[node1].name == self.subterms[node2].name) {
            return false;
        }
        let c1 = dag_children(&self.dag, node1);
        let c2 = dag_children(&self.dag, node2);
        proof {
            lemma_children_are_args(tv, node1 as int, tv.len() as int);
            lemma_children_are_args(tv, node2 as int, tv.len() as int);
            assert(seq_int(c1@).len() == c1@.len());
            assert(seq_int(c2@).len() == c2@.len());
        }
        if c1.len() != c2.len() {
            return false;
        }
        let nargs = c1.len();
        let mut k: usize = 0;
        while k < nargs
            invariant
                self.wf(),
                tv == self.regv(),
                m == self.partition(),
                (node1 as int) < tv.len(),
                (node2 as int) < tv.len(),
                seq_int(c1@) == targets_from(dag_edges(self.dag), node1 as int),
                seq_int(c2@) == targets_from(dag_edges(self.dag), node2 as int),
                nargs == c1@.len(),
                nargs == c2@.len(),
                nargs == tv[node1 as int].args.len(),
                nargs == tv[node2 as int].args.len(),
                k <= nargs,
                forall|p: int|
                    0 <= p < k ==> same_class(
                        m,
                        #[trigger] child_idx(tv, node1 as int, nargs - 1 - p),
                        child_idx(tv, node2 as int, nargs - 1 - p),
                    ),
            decreases nargs - k,
        {
            proof {
                lemma_children_are_args(tv, node1 as int, tv.len() as int);
                lemma_children_are_args(tv, node2 as int, tv.len() as int);
                assert(seq_int(c1@)[k as int] == c1@[k as int] as int);
                assert(seq_int(c2@)[k as int] == c2@[k as int] as int);
                assert(c1@[k as int] as int == child_idx(tv, node1 as int, nargs - 1 - k));
                assert(c2@[k as int] as int == child_idx(tv, node2 as int, nargs - 1 - k));
                crate::graph::lemma_child_idx(tv, node1 as int, nargs - 1 - k);
                crate::graph::lemma_child_idx(tv, node2 as int, nargs - 1 - k);
            }
            let cls1 = uf_find(&self.union_find, c1[k]);
            let cls2 = uf_find(&self.union_find, c2[k]);
            if cls1 != cls2 {
                proof {
                    assert(!same_class(
                        m,
                        child_idx(tv, node1 as int, nargs - 1 - k),
                        child_idx(tv, node2 as int, nargs - 1 - k),
                    ));
                }
                return false;
            }
            k = k + 1;
        }
        proof {
            assert forall|kk: int| 0 <= kk < tv[node1 as int].args.len() implies same_class(
                m,
                #[trigger] child_idx(tv, node1 as int, kk),
                child_idx(tv, node2 as int, kk),
            ) by {
                assert(same_class(
                    m,
                    child_idx(tv, node1 as int, nargs - 1 - (nargs - 1 - kk)),
                    child_idx(tv, node2 as int, nargs - 1 - (nargs - 1 - kk)),
                ));
            }
        }
        true
    }

    /// The parents of every node in the class of `x` under the current
    /// partition: when the class of `x` is joined with another, these
    /// are the nodes on `x`'s side whose congruences the union can
    /// newly establish, so the propagation must pair each of them with
    /// each parent of the other class.
    fn class_parents(&self, x: usize) -> (r: Vec<usize>)
        requires
            self.wf(),
            (x as int) < self.regv().len(),
        ensures
            forall|idx: int|
                0 <= idx < r@.len() ==> ((#[trigger] r@[idx]) as int) < self.regv().len(),
            forall|p: int, w: int|
                0 <= w < self.regv().len() && #[trigger] same_class(
                    self.partition(),
                    w,
                    x as int,
                ) && #[trigger] dag_edges(self.dag).contains((p, w)) ==> holds_val(r@, p),
    {
        let ghost tv = self.regv();
        let ghost m = self.partition();
        proof {
            lemma_views_of(self.subterms@);
            lemma_edges_upto_wf(tv, tv.len() as int);
        }
        let cx = uf_find(&self.union_find, x);
        let n = self.subterms.len();
        let mut out: Vec<usize> = Vec::new();
        let mut w: usize = 0;
        while w < n
            invariant
                self.wf(),
                tv == self.regv(),
                m == self.partition(),
                n == tv.len(),
                n == self.subterms@.len(),
                (x as int) < tv.len(),
                cx as int == m[x as int],
                edges_wf(tv, dag_edges(self.dag)),
                w <= n,
                forall|idx: int|
                    0 <= idx < out@.len() ==> ((#[trigger] out@[idx]) as int) < tv.len(),
                forall|p: int, w2: int|
                    0 <= w2 < w && #[trigger] same_class(m, w2, x as int)
                        && #[trigger] dag_edges(self.dag).contains((p, w2)) ==> holds_val(out@, p),
            decreases n - w,
        {
            let cw = uf_find(&self.union_find, w);
            if cw == cx {
                let pw = dag_parents(&self.dag, w);
                let ghost out0 = out@;
                proof {
                    lemma_sources_are_edges(dag_edges(self.dag), w as int);
                    lemma_edges_have_sources(dag_edges(self.dag), w as int);
                    assert forall|idx: int| 0 <= idx < pw@.len() implies ((#[trigger] pw@[idx])
                        as int) < tv.len() by {
                        assert(seq_int(pw@)[idx] == pw@[idx] as int);
                        assert(dag_edges(self.dag).contains((pw@[idx] as int, w as int)));
                        let e = choose|e: int|
                            0 <= e < dag_edges(self.dag).len() && dag_edges(self.dag)[e] == (
                            pw@[idx] as int,
                            w as int,
                            );
                    }
                }
                let npw = pw.len();
                let mut t: usize = 0;
                while t < npw
                    invariant
                        npw == pw@.len(),
                        t <= npw,
                        out@ == out0 + pw@.take(t as int),
                    decreases npw - t,
                {
                    let ghost before = out@;
                    out.push(pw[t]);
                    proof {
                        assert(out@ =~= before.push(pw@[t as int]));
                        assert(out0 + pw@.take(t as int + 1) =~= (out0 + pw@.take(t as int)).push(
                            pw@[t as int],
                        ));
                    }
                    t = t + 1;
                }
                proof {
                    assert(out@ =~= out0 + pw@);
                    assert forall|p: int, w2: int|
                        0 <= w2 < w + 1 && #[trigger] same_class(m, w2, x as int)
                            && #[trigger] dag_edges(self.dag).contains((p, w2)) implies holds_val(
                        out@,
                        p,
                    ) by {
                        if w2 < w {
                            assert(holds_val(out0, p));
                            let idx = choose|idx: int|
                                0 <= idx < out0.len() && ((#[trigger] out0[idx]) as int) == p;
                            assert(out@[idx] as int == p);
                        } else {
                            assert(sources_into(dag_edges(self.dag), w as int).contains(p));
                            let q = choose|q: int|
                                0 <= q < sources_into(dag_edges(self.dag), w as int).len()
                                    && sources_into(dag_edges(self.dag), w as int)[q] == p;
                            assert(seq_int(pw@)[q] == pw@[q] as int);
                            assert(pw@[q] as int == p);
                            assert(out@[out0.len() + q] as int == p);
                        }
                    }
                }
            } else {
                proof {
                    assert forall|p: int, w2: int|
                        0 <= w2 < w + 1 && #[trigger] same_class(m, w2, x as int)
                            && #[trigger] dag_edges(self.dag).contains((p, w2)) implies holds_val(
                        out@,
                        p,
                    ) by {
                        if w2 == w {
                            assert(m[w as int] == cw as int);
                            assert(false);
                        }
                    }
                }
            }
            w = w + 1;
        }
        out
    }

    /// The propagation step: joins the classes of the two nodes, then,
    /// through an explicit work list, joins every pair of captured
    /// parents that a union makes congruent, until no pending pair is
    /// left. Before each union the parents of both classes are
    /// captured, and the full cross product of the two captured sets is
    /// examined, so every congruence the union establishes is found.
    /// If the two nodes already share a class, nothing changes
    /// (idempotent no-op). Classes only coarsen and their number never
    /// grows; on a congruence-closed partition the result is exactly
    /// the congruence closure of the old partition extended by the
    /// requested pair: nothing less (the partition stays closed) and
    /// nothing more (every joined pair lies in that closure).
    fn merge(&mut self, node1: usize, node2: usize)
        requires
            old(self).wf(),
            (node1 as int) < old(self).regv().len(),
            (node2 as int) < old(self).regv().len(),
            congruence_closed(old(self).regv(), old(self).partition()),
        ensures
            final(self).wf(),
            final(self).regv() == old(self).regv(),
            final(self).rels() == old(self).rels(),
            same_class(old(self).partition(), node1 as int, node2 as int) ==> final(self).partition() == old(self).partition(),
            same_class(final(self).partition(), node1 as int, node2 as int),
            forall|x: int, y: int|
                0 <= x < old(self).partition().len() && 0 <= y < old(self).partition().len()
                    && #[trigger] same_class(old(self).partition(), x, y) ==> same_class(
                    final(self).partition(),
                    x,
                    y,
                ),
            class_count(final(self).partition()) <= class_count(old(self).partition()),
            congruence_closed(final(self).regv(), final(self).partition()),
            forall|x: int, y: int|
                0 <= x < final(self).partition().len() && 0 <= y < final(self).partition().len()
                    ==> (#[trigger] same_class(final(self).partition(), x, y) <==> in_cc(
                    final(self).regv(),
                    merged_base(old(self).partition(), node1 as int, node2 as int),
                    x,
                    y,
                )),
    {
        let ghost tv = self.regv();
        let ghost m0 = old(self).partition();
        let ghost b = merged_base(m0, node1 as int, node2 as int);
        let cls1 = uf_find(&self.union_find, node1);
        let cls2 = uf_find(&self.union_find, node2);
        if cls1 == cls2 {
            proof {
                assert forall|x: int, y: int|
                    0 <= x < self.partition().len() && 0 <= y < self.partition().len()
                        && #[trigger] same_class(self.partition(), x, y) implies in_cc(
                    tv,
                    b,
                    x,
                    y,
                ) by {
                    assert(b(x, y));
                    lemma_cc_base(tv, b, x, y);
                }
                assert forall|x: int, y: int| #[trigger] b(x, y) implies 0 <= x < tv.len() && 0
                    <= y < tv.len() && same_class(m0, x, y) by {}
                lemma_closed_contains_closure(tv, b, m0);
            }
            return ;
        }
        let mut pending: Vec<(usize, usize)> = Vec::new();
        pending.push((node1, node2));
        proof {
            assert(b(node1 as int, node2 as int));
            lemma_cc_base(tv, b, node1 as int, node2 as int);
            assert(pending@[0] == (node1, node2));
            assert(pending@.contains((node1, node2)));
            assert forall|x: int, y: int|
                0 <= x < tv.len() && 0 <= y < tv.len() && #[trigger] same_class(
                    self.partition(),
                    x,
                    y,
                ) implies in_cc(tv, b, x, y) by {
                assert(b(x, y));
                lemma_cc_base(tv, b, x, y);
            }
            assert(propagation_complete(tv, self.partition(), pending@)) by {
                assert forall|p: int, q: int|
                    0 <= p < tv.len() && 0 <= q < tv.len() && #[trigger] congruent_spec(
                        tv,
                        self.partition(),
                        p,
                        q,
                    ) implies same_class(self.partition(), p, q) || covers(pending@, p, q) by {}
            }
        }
        while pending.len() > 0
            invariant
                self.wf(),
                tv == self.regv(),
                self.rels() == old(self).rels(),
                m0.len() == tv.len(),
                (node1 as int) < tv.len(),
                (node2 as int) < tv.len(),
                b == merged_base(m0, node1 as int, node2 as int),
                forall|x: int, y: int|
                    0 <= x < tv.len() && 0 <= y < tv.len() && #[trigger] same_class(m0, x, y)
                        ==> same_class(self.partition(), x, y),
                class_count(self.partition()) <= class_count(m0),
                forall|x: int, y: int|
                    0 <= x < tv.len() && 0 <= y < tv.len() && #[trigger] same_class(
                        self.partition(),
                        x,
                        y,
                    ) ==> in_cc(tv, b, x, y),
                forall|p: int|
                    0 <= p < pending@.len() ==> ((#[trigger] pending@[p]).0 as int) < tv.len() && (
                    pending@[p].1 as int) < tv.len() && in_cc(
                        tv,
                        b,
                        pending@[p].0 as int,
                        pending@[p].1 as int,
                    ),
                same_class(self.partition(), node1 as int, node2 as int) || pending@.contains(
                    (node1, node2),
                ),
                propagation_complete(tv, self.partition(), pending@),
            decreases class_count(self.partition()), pending@.len(),
        {
            let ghost pend0 = pending@;
            let pr = match pending.pop() {
                Some(p) => p,
                None => {
                    proof {
                        assert(false);
                    }
                    (0, 0)
                },
            };
            let x = pr.0;
            let y = pr.1;
            proof {
                assert(pend0[pend0.len() - 1] == pr);
                assert((x as int) < tv.len() && (y as int) < tv.len());
                assert(in_cc(tv, b, x as int, y as int));
                if pend0.contains((node1, node2)) && pr != (node1, node2) {
                    let w = choose|w: int| 0 <= w < pend0.len() && pend0[w] == (node1, node2);
                    assert(pending@[w] == (node1, node2));
                    assert(pending@.contains((node1, node2)));
                }
            }
            let cx = uf_find(&self.union_find, x);
            let cy = uf_find(&self.union_find, y);
            if cx != cy {
                let ghost m_pre = self.partition();
                let px = self.class_parents(x);
                let py = self.class_parents(y);
                proof {
                    lemma_edges_upto_wf(tv, tv.len() as int);
                    assert(forall|p: int, w: int|
                        0 <= w < tv.len() && #[trigger] same_class(m_pre, w, x as int)
                            && #[trigger] dag_edges(self.dag).contains((p, w)) ==> holds_val(
                            px@,
                            p,
                        ));
                    assert(forall|p: int, w: int|
                        0 <= w < tv.len() && #[trigger] same_class(m_pre, w, y as int)
                            && #[trigger] dag_edges(self.dag).contains((p, w)) ==> holds_val(
                            py@,
                            p,
                        ));
                }
                let _ = uf_union(&mut self.union_find, x, y);
                let ghost m_new = self.partition();
                proof {
                    lemma_union_join(m_pre, m_new, x as int, y as int);
                    lemma_union_count(m_pre, m_new, x as int, y as int);
                    assert forall|u: int, v: int|
                        0 <= u < tv.len() && 0 <= v < tv.len() && #[trigger] same_class(
                            m_new,
                            u,
                            v,
                        ) implies in_cc(tv, b, u, v) by {
                        if same_class(m_pre, u, v) {
                        } else if same_class(m_pre, u, x as int) && same_class(
                            m_pre,
                            y as int,
                            v,
                        ) {
                            lemma_cc_trans(tv, b, u as int, x as int, y as int);
                            lemma_cc_trans(tv, b, u as int, y as int, v as int);
                        } else {
                            assert(same_class(m_pre, u, y as int) && same_class(
                                m_pre,
                                x as int,
                                v,
                            ));
                            lemma_cc_sym(tv, b, x as int, y as int);
                            lemma_cc_trans(tv, b, u as int, y as int, x as int);
                            lemma_cc_trans(tv, b, u as int, x as int, v as int);
                        }
                    }
                    assert forall|u: int, v: int|
                        0 <= u < tv.len() && 0 <= v < tv.len() && #[trigger] same_class(m0, u, v)
                        implies same_class(m_new, u, v) by {
                        assert(same_class(m_pre, u, v));
                    }
                }
                let ghost pend_base = pending@;
                let npx = px.len();
                let mut i1: usize = 0;
                while i1 < npx
                    invariant
                        self.wf(),
                        tv == self.regv(),
                        self.rels() == old(self).rels(),
                        m0.len() == tv.len(),
                        (node1 as int) < tv.len(),
                        (node2 as int) < tv.len(),
                        b == merged_base(m0, node1 as int, node2 as int),
                        self.partition() == m_new,
                        npx == px@.len(),
                        i1 <= npx,
                        forall|p: int|
                            0 <= p < px@.len() ==> ((#[trigger] px@[p]) as int) < tv.len(),
                        forall|p: int|
                            0 <= p < py@.len() ==> ((#[trigger] py@[p]) as int) < tv.len(),
                        forall|x2: int, y2: int|
                            0 <= x2 < tv.len() && 0 <= y2 < tv.len() && #[trigger] same_class(
                                m_new,
                                x2,
                                y2,
                            ) ==> in_cc(tv, b, x2, y2),
                        forall|p: int|
                            0 <= p < pending@.len() ==> ((#[trigger] pending@[p]).0 as int)
                                < tv.len() && (pending@[p].1 as int) < tv.len() && in_cc(
                                tv,
                                b,
                                pending@[p].0 as int,
                                pending@[p].1 as int,
                            ),
                        same_class(m_new, node1 as int, node2 as int) || pending@.contains(
                            (node1, node2),
                        ),
                        pend_base.len() <= pending@.len(),
                        forall|idx: int|
                            0 <= idx < pend_base.len() ==> #[trigger] pending@[idx] == pend_base[
                                idx
                            ],
                        forall|u: int, v: int|
                            0 <= u < i1 && 0 <= v < py@.len() ==> #[trigger] pair_settled(
                                tv,
                                m_new,
                                pending@,
                                px@[u] as int,
                                py@[v] as int,
                            ),
                    decreases npx - i1,
                {
                    let q1 = px[i1];
                    let npy = py.len();
                    let mut i2: usize = 0;
                    while i2 < npy
                        invariant
                            self.wf(),
                            tv == self.regv(),
                            self.rels() == old(self).rels(),
                            m0.len() == tv.len(),
                            (node1 as int) < tv.len(),
                            (node2 as int) < tv.len(),
                            b == merged_base(m0, node1 as int, node2 as int),
                            self.partition() == m_new,
                            npx == px@.len(),
                            i1 < npx,
                            q1 == px@[i1 as int],
                            (q1 as int) < tv.len(),
                            npy == py@.len(),
                            i2 <= npy,
                            forall|p: int|
                                0 <= p < px@.len() ==> ((#[trigger] px@[p]) as int) < tv.len(),
                            forall|p: int|
                                0 <= p < py@.len() ==> ((#[trigger] py@[p]) as int) < tv.len(),
                            forall|x2: int, y2: int|
                                0 <= x2 < tv.len() && 0 <= y2 < tv.len() && #[trigger] same_class(
                                    m_new,
                                    x2,
                                    y2,
                                ) ==> in_cc(tv, b, x2, y2),
                            forall|p: int|
                                0 <= p < pending@.len() ==> ((#[trigger] pending@[p]).0 as int)
                                    < tv.len() && (pending@[p].1 as int) < tv.len() && in_cc(
                                    tv,
                                    b,
                                    pending@[p].0 as int,
                                    pending@[p].1 as int,
                                ),
                            same_class(m_new, node1 as int, node2 as int) || pending@.contains(
                                (node1, node2),
                            ),
                            pend_base.len() <= pending@.len(),
                            forall|idx: int|
                                0 <= idx < pend_base.len() ==> #[trigger] pending@[idx]
                                    == pend_base[idx],
                            forall|u: int, v: int|
                                0 <= u < i1 && 0 <= v < py@.len() ==> #[trigger] pair_settled(
                                    tv,
                                    m_new,
                                    pending@,
                                    px@[u] as int,
                                    py@[v] as int,
                                ),
                            forall|v: int|
                                0 <= v < i2 ==> #[trigger] pair_settled(
                                    tv,
                                    m_new,
                                    pending@,
                                    q1 as int,
                                    py@[v] as int,
                                ),
                        decreases npy - i2,
                    {
                        let q2 = py[i2];
                        let cq1 = uf_find(&self.union_find, q1);
                        let cq2 = uf_find(&self.union_find, q2);
                        let ghost pend1 = pending@;
                        if cq1 != cq2 && self.congruent(q1, q2) {
                            proof {
                                let m_cur = self.partition();
                                assert(congruent_spec(tv, m_cur, q1 as int, q2 as int));
                                assert forall|k: int|
                                    0 <= k < tv[q1 as int].args.len() implies in_cc(
                                    tv,
                                    b,
                                    #[trigger] child_idx(tv, q1 as int, k),
                                    child_idx(tv, q2 as int, k),
                                ) by {
                                    crate::graph::lemma_child_idx(tv, q1 as int, k);
                                    crate::graph::lemma_child_idx(tv, q2 as int, k);
                                    assert(same_class(
                                        m_cur,
                                        child_idx(tv, q1 as int, k),
                                        child_idx(tv, q2 as int, k),
                                    ));
                                }
                                lemma_cc_cong(tv, b, q1 as int, q2 as int);
                            }
                            pending.push((q1, q2));
                            proof {
                                assert forall|p: int|
                                    0 <= p < pending@.len() implies ((#[trigger] pending@[p]).0
                                    as int) < tv.len() && (pending@[p].1 as int) < tv.len()
                                    && in_cc(
                                    tv,
                                    b,
                                    pending@[p].0 as int,
                                    pending@[p].1 as int,
                                ) by {
                                    if p < pend1.len() {
                                        assert(pending@[p] == pend1[p]);
                                    } else {
                                        assert(pending@[p] == (q1, q2));
                                    }
                                }
                                if pend1.contains((node1, node2)) {
                                    let w = choose|w: int|
                                        0 <= w < pend1.len() && pend1[w] == (node1, node2);
                                    assert(pending@[w] == (node1, node2));
                                    assert(pending@.contains((node1, node2)));
                                }
                            }
                        }
                        proof {
                            assert forall|u: int, v: int|
                                0 <= u < i1 && 0 <= v < py@.len() implies #[trigger] pair_settled(
                                tv,
                                m_new,
                                pending@,
                                px@[u] as int,
                                py@[v] as int,
                            ) by {
                                assert(pair_settled(tv, m_new, pend1, px@[u] as int, py@[v] as int));
                                if covers(pend1, px@[u] as int, py@[v] as int) {
                                    let idx = choose|idx: int|
                                        0 <= idx < pend1.len() && (((#[trigger] pend1[idx]).0
                                            as int == px@[u] as int && pend1[idx].1 as int == py@[v]
                                            as int) || (pend1[idx].0 as int == py@[v] as int
                                            && pend1[idx].1 as int == px@[u] as int));
                                    assert(pending@[idx] == pend1[idx]);
                                }
                            }
                            assert forall|v: int| 0 <= v < i2 + 1 implies #[trigger] pair_settled(
                                tv,
                                m_new,
                                pending@,
                                q1 as int,
                                py@[v] as int,
                            ) by {
                                if v < i2 {
                                    assert(pair_settled(tv, m_new, pend1, q1 as int, py@[v] as int));
                                    if covers(pend1, q1 as int, py@[v] as int) {
                                        let idx = choose|idx: int|
                                            0 <= idx < pend1.len() && (((#[trigger] pend1[idx]).0
                                                as int == q1 as int && pend1[idx].1 as int == py@[v]
                                                as int) || (pend1[idx].0 as int == py@[v] as int
                                                && pend1[idx].1 as int == q1 as int));
                                        assert(pending@[idx] == pend1[idx]);
                                    }
                                } else {
                                    if !same_class(m_new, q1 as int, q2 as int) && congruent_spec(
                                        tv,
                                        m_new,
                                        q1 as int,
                                        q2 as int,
                                    ) {
                                        assert(pending@.last() == (q1, q2));
                                        assert(covers(pending@, q1 as int, q2 as int));
                                    }
                                }
                            }
                        }
                        i2 = i2 + 1;
                    }
                    i1 = i1 + 1;
                }
                proof {
                    assert forall|p: int, q: int|
                        0 <= p < tv.len() && 0 <= q < tv.len() && #[trigger] congruent_spec(
                            tv,
                            m_new,
                            p,
                            q,
                        ) implies same_class(m_new, p, q) || covers(pending@, p, q) by {
                        if congruent_spec(tv, m_pre, p, q) {
                            assert(same_class(m_pre, p, q) || covers(pend0, p, q));
                            if same_class(m_pre, p, q) {
                                assert(same_class(m_new, p, q));
                            } else {
                                let idx = choose|idx: int|
                                    0 <= idx < pend0.len() && (((#[trigger] pend0[idx]).0 as int
                                        == p && pend0[idx].1 as int == q) || (pend0[idx].0 as int
                                        == q && pend0[idx].1 as int == p));
                                if idx == pend0.len() - 1 {
                                    assert(same_class(m_new, x as int, y as int));
                                    assert(same_class(m_new, p, q));
                                } else {
                                    assert(pend_base[idx] == pend0[idx]);
                                    assert(pending@[idx] == pend0[idx]);
                                    assert(covers(pending@, p, q));
                                }
                            }
                        } else {
                            let k = choose|k: int|
                                0 <= k < tv[p].args.len() && !same_class(
                                    m_pre,
                                    #[trigger] child_idx(tv, p, k),
                                    child_idx(tv, q, k),
                                );
                            let cp = child_idx(tv, p, k);
                            let cq = child_idx(tv, q, k);
                            crate::graph::lemma_child_idx(tv, p, k);
                            crate::graph::lemma_child_idx(tv, q, k);
                            assert(same_class(m_new, cp, cq));
                            crate::graph::lemma_row_edge_present(tv, p, k, tv.len() as int);
                            crate::graph::lemma_row_edge_present(tv, q, k, tv.len() as int);
                            assert(dag_edges(self.dag).contains((p, cp)));
                            assert(dag_edges(self.dag).contains((q, cq)));
                            if same_class(m_pre, cp, x as int) && same_class(
                                m_pre,
                                y as int,
                                cq,
                            ) {
                                assert(same_class(m_pre, cq, y as int));
                                assert(holds_val(px@, p));
                                assert(holds_val(py@, q));
                                let u = choose|u: int|
                                    0 <= u < px@.len() && ((#[trigger] px@[u]) as int) == p;
                                let v = choose|v: int|
                                    0 <= v < py@.len() && ((#[trigger] py@[v]) as int) == q;
                                assert(pair_settled(tv, m_new, pending@, p, q));
                            } else {
                                assert(same_class(m_pre, cp, y as int) && same_class(
                                    m_pre,
                                    x as int,
                                    cq,
                                ));
                                assert(same_class(m_pre, cq, x as int));
                                assert(holds_val(py@, p));
                                assert(holds_val(px@, q));
                                let u = choose|u: int|
                                    0 <= u < px@.len() && ((#[trigger] px@[u]) as int) == q;
                                let v = choose|v: int|
                                    0 <= v < py@.len() && ((#[trigger] py@[v]) as int) == p;
                                assert(pair_settled(tv, m_new, pending@, q, p));
                                assert(congruent_spec(tv, m_new, q, p)) by {
                                    assert forall|k2: int|
                                        0 <= k2 < tv[q].args.len() implies same_class(
                                        m_new,
                                        #[trigger] child_idx(tv, q, k2),
                                        child_idx(tv, p, k2),
                                    ) by {
                                        assert(same_class(
                                            m_new,
                                            child_idx(tv, p, k2),
                                            child_idx(tv, q, k2),
                                        ));
                                    }
                                }
                                if same_class(m_new, q, p) {
                                    assert(same_class(m_new, p, q));
                                } else {
                                    assert(covers(pending@, q, p));
                                    let idx = choose|idx: int|
                                        0 <= idx < pending@.len() && (((
                                        #[trigger] pending@[idx]).0 as int == q && pending@[idx].1
                                            as int == p) || (pending@[idx].0 as int == p
                                            && pending@[idx].1 as int == q));
                                    assert(covers(pending@, p, q));
                                }
                            }
                        }
                    }
                    assert(propagation_complete(tv, m_new, pending@));
                }
            } else {
                proof {
                    assert forall|p: int, q: int|
                        0 <= p < tv.len() && 0 <= q < tv.len() && #[trigger] congruent_spec(
                            tv,
                            self.partition(),
                            p,
                            q,
                        ) implies same_class(self.partition(), p, q) || covers(
                        pending@,
                        p,
                        q,
                    ) by {
                        assert(same_class(self.partition(), p, q) || covers(pend0, p, q));
                        if !same_class(self.partition(), p, q) {
                            let idx = choose|idx: int|
                                0 <= idx < pend0.len() && (((#[trigger] pend0[idx]).0 as int == p
                                    && pend0[idx].1 as int == q) || (pend0[idx].0 as int == q
                                    && pend0[idx].1 as int == p));
                            if idx == pend0.len() - 1 {
                                assert(same_class(self.partition(), x as int, y as int));
                                assert(false);
                            } else {
                                assert(pending@[idx] == pend0[idx]);
                                assert(covers(pending@, p, q));
                            }
                        }
                    }
                }
            }
        }
        proof {
            assert(!pending@.contains((node1, node2)));
            assert(congruence_closed(tv, self.partition())) by {
                assert forall|p: int, q: int|
                    0 <= p < tv.len() && 0 <= q < tv.len() && #[trigger] congruent_spec(
                        tv,
                        self.partition(),
                        p,
                        q,
                    ) implies same_class(self.partition(), p, q) by {
                    if covers(pending@, p, q) {
                        let idx = choose|idx: int|
                            0 <= idx < pending@.len() && (((#[trigger] pending@[idx]).0 as int
                                == p && pending@[idx].1 as int == q) || (pending@[idx].0 as int
                                == q && pending@[idx].1 as int == p));
                        assert(false);
                    }
                }
            }
            assert forall|x2: int, y2: int| #[trigger] b(x2, y2) implies 0 <= x2 < tv.len() && 0
                <= y2 < tv.len() && same_class(self.partition(), x2, y2) by {
                if 0 <= x2 < m0.len() && 0 <= y2 < m0.len() && same_class(m0, x2, y2) {
                } else {
                    assert(x2 == node1 as int && y2 == node2 as int);
                }
            }
            lemma_closed_contains_closure(tv, b, self.partition());
        }
    }

    /// Partition the batch indices by literal kind, keeping input order:
    /// first the equalities, then the disequalities.
    fn split_relations(relations: &Vec<Relation>) -> (r: (Vec<usize>, Vec<usize>))
        ensures
            seq_int(r.0@) == kind_indices(
                rel_views(relations@),
                Kind::Equal,
                relations@.len() as int,
            ),
            seq_int(r.1@) == kind_indices(
                rel_views(relations@),
                Kind::NotEqual,
                relations@.len() as int,
            ),
    {
        let ghost rvs = rel_views(relations@);
        let mut eqs: Vec<usize> = Vec::new();
        let mut neqs: Vec<usize> = Vec::new();
        let n = relations.len();
        let mut i: usize = 0;
        proof {
            assert(seq_int(eqs@) =~= kind_indices(rvs, Kind::Equal, 0));
            assert(seq_int(neqs@) =~= kind_indices(rvs, Kind::NotEqual, 0));
        }
        while i < n
            invariant
                n == relations@.len(),
                rvs == rel_views(relations@),
                i <= n,
                seq_int(eqs@) == kind_indices(rvs, Kind::Equal, i as int),
                seq_int(neqs@) == kind_indices(rvs, Kind::NotEqual, i as int),
            decreases n - i,
        {
            proof {
                assert(rvs[i as int] == relations@[i as int]@);
            }
            match relations[i].kind {
                Kind::Equal => {
                    let ghost pre = eqs@;
                    eqs.push(i);
                    proof {
                        assert(seq_int(eqs@) =~= seq_int(pre).push(i as int));
                        assert(seq_int(eqs@) =~= kind_indices(rvs, Kind::Equal, i as int + 1));
                        assert(seq_int(neqs@) =~= kind_indices(rvs, Kind::NotEqual, i as int + 1));
                    }
                },
                Kind::NotEqual => {
                    let ghost pre = neqs@;
                    neqs.push(i);
                    proof {
                        assert(seq_int(neqs@) =~= seq_int(pre).push(i as int));
                        assert(seq_int(neqs@) =~= kind_indices(rvs, Kind::NotEqual, i as int + 1));
                        assert(seq_int(eqs@) =~= kind_indices(rvs, Kind::Equal, i as int + 1));
                    }
                },
            }
            i = i + 1;
        }
        (eqs, neqs)
    }

    /// Decide the batch: merge both sides of every equality (computing
    /// the congruence propagation of each), then test every disequality
    /// against the closed partition. Starting from the built state, in
    /// which every subterm is alone in its own class, the final
    /// partition is exactly the congruence closure of the input
    /// equalities: it contains them, it is closed under congruence, and
    /// two subterms share a class precisely when the closure relates
    /// them. The verdict is satisfiable exactly when no disequality's
    /// two sides are related by that closure.
    pub fn check_satisfiable(&mut self) -> (r: bool)
        requires
            old(self).wf(),
            old(self).partition() == Seq::new(old(self).regv().len(), |i: int| i),
        ensures
            final(self).wf(),
            final(self).regv() == old(self).regv(),
            final(self).rels() == old(self).rels(),
            forall|x: int, y: int|
                0 <= x < old(self).partition().len() && 0 <= y < old(self).partition().len()
                    && #[trigger] same_class(old(self).partition(), x, y) ==> same_class(
                    final(self).partition(),
                    x,
                    y,
                ),
            class_count(final(self).partition()) <= class_count(old(self).partition()),
            forall|j: int|
                0 <= j < final(self).rels().len() && (#[trigger] final(self).rels()[j]).kind
                    is Equal ==> same_class(
                    final(self).partition(),
                    final(self).regv().index_of(final(self).rels()[j].left),
                    final(self).regv().index_of(final(self).rels()[j].right),
                ),
            congruence_closed(final(self).regv(), final(self).partition()),
            forall|x: int, y: int|
                0 <= x < final(self).partition().len() && 0 <= y < final(self).partition().len()
                    ==> (#[trigger] same_class(final(self).partition(), x, y) <==> in_cc(
                    final(self).regv(),
                    final(self).eq_base(),
                    x,
                    y,
                )),
            r == (forall|j: int|
                0 <= j < final(self).rels().len() && (#[trigger] final(self).rels()[j]).kind
                    is NotEqual ==> !same_class(
                    final(self).partition(),
                    final(self).regv().index_of(final(self).rels()[j].left),
                    final(self).regv().index_of(final(self).rels()[j].right),
                )),
            r == (forall|j: int|
                0 <= j < final(self).rels().len() && (#[trigger] final(self).rels()[j]).kind
                    is NotEqual ==> !in_cc(
                    final(self).regv(),
                    final(self).eq_base(),
                    final(self).regv().index_of(final(self).rels()[j].left),
                    final(self).regv().index_of(final(self).rels()[j].right),
                )),
    {
        let ghost tv = self.regv();
        let ghost rvs = self.rels();
        let ghost m0 = old(self).partition();
        let ghost be = eq_base_of(tv, rvs);
        let (eqs, neqs) = Solver::split_relations(&self.relations);
        proof {
            lemma_kind_indices(rvs, Kind::Equal, rvs.len() as int);
            lemma_kind_indices(rvs, Kind::NotEqual, rvs.len() as int);
            lemma_fresh_partition_closed(tv);
            assert forall|x: int, y: int|
                0 <= x < tv.len() && 0 <= y < tv.len() && #[trigger] same_class(
                    self.partition(),
                    x,
                    y,
                ) implies in_cc(tv, be, x, y) by {
                assert(m0[x] == x && m0[y] == y);
                lemma_cc_refl(tv, be, x);
            }
        }
        let neq = eqs.len();
        let mut i: usize = 0;
        while i < neq
            invariant
                self.wf(),
                tv == self.regv(),
                rvs == self.rels(),
                m0.len() == tv.len(),
                be == eq_base_of(tv, rvs),
                neq == eqs@.len(),
                i <= neq,
                seq_int(eqs@) == kind_indices(rvs, Kind::Equal, rvs.len() as int),
                forall|x: int, y: int|
                    0 <= x < tv.len() && 0 <= y < tv.len() && #[trigger] same_class(m0, x, y)
                        ==> same_class(self.partition(), x, y),
                class_count(self.partition()) <= class_count(m0),
                congruence_closed(tv, self.partition()),
                forall|x: int, y: int|
                    0 <= x < tv.len() && 0 <= y < tv.len() && #[trigger] same_class(
                        self.partition(),
                        x,
                        y,
                    ) ==> in_cc(tv, be, x, y),
                forall|p: int|
                    0 <= p < i ==> same_class(
                        self.partition(),
                        tv.index_of(rvs[#[trigger] seq_int(eqs@)[p]].left),
                        tv.index_of(rvs[seq_int(eqs@)[p]].right),
                    ),
            decreases neq - i,
        {
            proof {
                lemma_kind_indices(rvs, Kind::Equal, rvs.len() as int);
                assert(kind_indices(rvs, Kind::Equal, rvs.len() as int).contains(
                    seq_int(eqs@)[i as int],
                ));
                assert(seq_int(eqs@)[i as int] == eqs@[i as int] as int);
            }
            let j = eqs[i];
            proof {
                assert(rvs[j as int].kind == Kind::Equal);
                assert(rvs[j as int] == self.relations@[j as int]@);
                assert(tv.contains(rvs[j as int].left));
                assert(tv.contains(rvs[j as int].right));
            }
            let li = position_of_term(&self.subterms, &self.relations[j].left);
            let ri = position_of_term(&self.subterms, &self.relations[j].right);
            proof {
                lemma_views_of(self.subterms@);
                assert(tv[li as int] == rvs[j as int].left);
                assert(tv[ri as int] == rvs[j as int].right);
                assert(li as int == tv.index_of(rvs[j as int].left)) by {
                    let c = tv.index_of(rvs[j as int].left);
                    assert(0 <= c < tv.len() && tv[c] == rvs[j as int].left);
                    crate::registry::lemma_unique_position(tv, li as int, c);
                }
                assert(ri as int == tv.index_of(rvs[j as int].right)) by {
                    let c = tv.index_of(rvs[j as int].right);
                    assert(0 <= c < tv.len() && tv[c] == rvs[j as int].right);
                    crate::registry::lemma_unique_position(tv, ri as int, c);
                }
            }
            let ghost m_pre = self.partition();
            let ghost merged_ids = seq_int(eqs@);
            self.merge(li, ri);
            proof {
                let mb = merged_base(m_pre, li as int, ri as int);
                assert forall|x: int, y: int| #[trigger] mb(x, y) implies in_cc(tv, be, x, y) by {
                    if 0 <= x < m_pre.len() && 0 <= y < m_pre.len() && same_class(m_pre, x, y) {
                    } else {
                        assert(x == li as int && y == ri as int);
                        assert(be(x, y)) by {
                            assert(0 <= (j as int) && (j as int) < rvs.len() && rvs[j as int].kind
                                is Equal && x == tv.index_of(rvs[j as int].left) && y
                                == tv.index_of(rvs[j as int].right));
                        }
                        lemma_cc_base(tv, be, x, y);
                    }
                }
                lemma_cc_squash(tv, mb, be);
                assert forall|p: int| 0 <= p < i + 1 implies same_class(
                    self.partition(),
                    tv.index_of(rvs[#[trigger] seq_int(eqs@)[p]].left),
                    tv.index_of(rvs[seq_int(eqs@)[p]].right),
                ) by {
                    if p < i {
                        let jj = seq_int(eqs@)[p];
                        assert(kind_indices(rvs, Kind::Equal, rvs.len() as int).contains(jj));
                        assert(tv.contains(rvs[jj].left));
                        assert(tv.contains(rvs[jj].right));
                        lemma_index_of(tv, rvs[jj].left);
                        lemma_index_of(tv, rvs[jj].right);
                        assert(same_class(
                            m_pre,
                            tv.index_of(rvs[jj].left),
                            tv.index_of(rvs[jj].right),
                        ));
                    }
                }
            }
            i = i + 1;
        }
        proof {
            assert forall|j: int|
                0 <= j < rvs.len() && (#[trigger] rvs[j]).kind is Equal implies same_class(
                self.partition(),
                tv.index_of(rvs[j].left),
                tv.index_of(rvs[j].right),
            ) by {
                assert(rvs[j].kind == Kind::Equal);
                assert(kind_indices(rvs, Kind::Equal, rvs.len() as int).contains(j));
                let p = choose|p: int|
                    0 <= p < seq_int(eqs@).len() && seq_int(eqs@)[p] == j;
                assert(same_class(
                    self.partition(),
                    tv.index_of(rvs[seq_int(eqs@)[p]].left),
                    tv.index_of(rvs[seq_int(eqs@)[p]].right),
                ));
            }
            assert forall|x2: int, y2: int| #[trigger] be(x2, y2) implies 0 <= x2 < tv.len()
                && 0 <= y2 < tv.len() && same_class(self.partition(), x2, y2) by {
                let j = choose|j: int|
                    0 <= j < rvs.len() && (#[trigger] rvs[j]).kind is Equal && x2 == tv.index_of(
                        rvs[j].left,
                    ) && y2 == tv.index_of(rvs[j].right);
                assert(tv.contains(rvs[j].left));
                assert(tv.contains(rvs[j].right));
                lemma_index_of(tv, rvs[j].left);
                lemma_index_of(tv, rvs[j].right);
                assert(same_class(self.partition(), tv.index_of(rvs[j].left), tv.index_of(
                    rvs[j].right,
                )));
            }
            lemma_closed_contains_closure(tv, be, self.partition());
        }
        let ghost m_done = self.partition();
        let nneq = neqs.len();
        let mut i2: usize = 0;
        while i2 < nneq
            invariant
                self.wf(),
                tv == self.regv(),
                rvs == self.rels(),
                tv == old(self).regv(),
                rvs == old(self).rels(),
                m0 == old(self).partition(),
                m0.len() == tv.len(),
                be == eq_base_of(tv, rvs),
                self.partition() == m_done,
                nneq == neqs@.len(),
                i2 <= nneq,
                seq_int(neqs@) == kind_indices(rvs, Kind::NotEqual, rvs.len() as int),
                forall|x: int, y: int|
                    0 <= x < tv.len() && 0 <= y < tv.len() && #[trigger] same_class(m0, x, y)
                        ==> same_class(m_done, x, y),
                class_count(m_done) <= class_count(m0),
                congruence_closed(tv, m_done),
                forall|x: int, y: int|
                    0 <= x < tv.len() && 0 <= y < tv.len() ==> (#[trigger] same_class(
                        m_done,
                        x,
                        y,
                    ) <==> in_cc(tv, be, x, y)),
                forall|j: int|
                    0 <= j < rvs.len() && (#[trigger] rvs[j]).kind is Equal ==> same_class(
                        m_done,
                        tv.index_of(rvs[j].left),
                        tv.index_of(rvs[j].right),
                    ),
                forall|p: int|
                    0 <= p < i2 ==> !same_class(
                        m_done,
                        tv.index_of(rvs[#[trigger] seq_int(neqs@)[p]].left),
                        tv.index_of(rvs[seq_int(neqs@)[p]].right),
                    ),
            decreases nneq - i2,
        {
            proof {
                lemma_kind_indices(rvs, Kind::NotEqual, rvs.len() as int);
                assert(kind_indices(rvs, Kind::NotEqual, rvs.len() as int).contains(
                    seq_int(neqs@)[i2 as int],
                ));
                assert(seq_int(neqs@)[i2 as int] == neqs@[i2 as int] as int);
            }
            let j = neqs[i2];
            proof {
                assert(rvs[j as int].kind == Kind::NotEqual);
                assert(rvs[j as int] == self.relations@[j as int]@);
                assert(tv.contains(rvs[j as int].left));
                assert(tv.contains(rvs[j as int].right));
            }
            let li = position_of_term(&self.subterms, &self.relations[j].left);
            let ri = position_of_term(&self.subterms, &self.relations[j].right);
            proof {
                lemma_views_of(self.subterms@);
                assert(tv[li as int] == rvs[j as int].left);
                assert(tv[ri as int] == rvs[j as int].right);
                assert(li as int == tv.index_of(rvs[j as int].left)) by {
                    let c = tv.index_of(rvs[j as int].left);
                    assert(0 <= c < tv.len() && tv[c] == rvs[j as int].left);
                    crate::registry::lemma_unique_position(tv, li as int, c);
                }
                assert(ri as int == tv.index_of(rvs[j as int].right)) by {
                    let c = tv.index_of(rvs[j as int].right);
                    assert(0 <= c < tv.len() && tv[c] == rvs[j as int].right);
                    crate::registry::lemma_unique_position(tv, ri as int, c);
                }
            }
            let cl = uf_find(&self.union_find, li);
            let cr = uf_find(&self.union_find, ri);
            if cl == cr {
                proof {
                    assert(same_class(
                        m_done,
                        tv.index_of(rvs[j as int].left),
                        tv.index_of(rvs[j as int].right),
                    ));
                    assert(rvs[j as int].kind is NotEqual);
                    assert(in_cc(tv, be, tv.index_of(rvs[j as int].left), tv.index_of(
                        rvs[j as int].right,
                    )));
                }
                return false;
            }
            i2 = i2 + 1;
        }
        proof {
            assert forall|j: int|
                0 <= j < rvs.len() && (#[trigger] rvs[j]).kind is NotEqual implies !same_class(
                m_done,
                tv.index_of(rvs[j].left),
                tv.index_of(rvs[j].right),
            ) by {
                lemma_kind_indices(rvs, Kind::NotEqual, rvs.len() as int);
                assert(kind_indices(rvs, Kind::NotEqual, rvs.len() as int).contains(j));
                let p = choose|p: int|
                    0 <= p < seq_int(neqs@).len() && seq_int(neqs@)[p] == j;
                assert(!same_class(
                    m_done,
                    tv.index_of(rvs[seq_int(neqs@)[p]].left),
                    tv.index_of(rvs[seq_int(neqs@)[p]].right),
                ));
            }
            assert forall|j: int|
                0 <= j < rvs.len() && (#[trigger] rvs[j]).kind is NotEqual implies !in_cc(
                tv,
                be,
                tv.index_of(rvs[j].left),
                tv.index_of(rvs[j].right),
            ) by {
                assert(tv.contains(rvs[j].left));
                assert(tv.contains(rvs[j].right));
                lemma_index_of(tv, rvs[j].left);
                lemma_index_of(tv, rvs[j].right);
                assert(!same_class(m_done, tv.index_of(rvs[j].left), tv.index_of(rvs[j].right)));
            }
        }
        true
    }

    /// Every pair of distinct registry entries congruent under the
    /// current partition, as diagnostic lines of their canonical
    /// renderings, ordered by first index, then second.
    pub fn find_all_congruent_terms(&self) -> (r: Vec<String>)
        requires
            self.wf(),
        ensures
            r@.len() == cong_upto(self.regv(), self.partition(), self.regv().len() as int).len(),
            forall|p: int|
                0 <= p < r@.len() ==> r@[p]@ == cong_upto(
                    self.regv(),
                    self.partition(),
                    self.regv().len() as int,
                )[p],
    {
        let ghost tv = self.regv();
        let ghost m = self.partition();
        proof {
            lemma_views_of(self.subterms@);
        }
        let n = self.subterms.len();
        let mut out: Vec<String> = Vec::new();
        let mut i: usize = 0;
        proof {
            assert(cong_upto(tv, m, 0) =~= Seq::<Seq<char>>::empty());
        }
        while i < n
            invariant
                self.wf(),
                tv == self.regv(),
                m == self.partition(),
                n == self.subterms@.len(),
                n == tv.len(),
                i <= n,
                out@.len() == cong_upto(tv, m, i as int).len(),
                forall|p: int|
                    0 <= p < out@.len() ==> out@[p]@ == cong_upto(tv, m, i as int)[p],
            decreases n - i,
        {
            let mut j: usize = i + 1;
            proof {
                assert(cong_row(tv, m, i as int, i as int + 1) =~= Seq::<Seq<char>>::empty());
                assert(cong_upto(tv, m, i as int) + cong_row(tv, m, i as int, i as int + 1)
                    =~= cong_upto(tv, m, i as int));
            }
            while j < n
                invariant
                    self.wf(),
                    tv == self.regv(),
                    m == self.partition(),
                    n == self.subterms@.len(),
                    n == tv.len(),
                    i < n,
                    i + 1 <= j <= n,
                    out@.len() == (cong_upto(tv, m, i as int) + cong_row(
                        tv,
                        m,
                        i as int,
                        j as int,
                    )).len(),
                    forall|p: int|
                        0 <= p < out@.len() ==> out@[p]@ == (cong_upto(tv, m, i as int)
                            + cong_row(tv, m, i as int, j as int))[p],
                decreases n - j,
            {
                let ghost pre = cong_upto(tv, m, i as int) + cong_row(tv, m, i as int, j as int);
                proof {
                    assert(cong_row(tv, m, i as int, j as int + 1) == cong_row(
                        tv,
                        m,
                        i as int,
                        j as int,
                    ) + if congruent_spec(tv, m, i as int, j as int) {
                        seq![pair_text(tv[i as int], tv[j as int])]
                    } else {
                        Seq::<Seq<char>>::empty()
                    });
                }
                if self.congruent(i, j) {
                    proof {
                        lemma_views_of(self.subterms@);
                    }
                    let mut line = self.subterms[i].to_text();
                    let snd = self.subterms[j].to_text();
                    line.append(" ~ ");
                    line.append(snd.as_str());
                    let ghost old_out = out@;
                    out.push(line);
                    proof {
                        assert(line@ =~= pair_text(tv[i as int], tv[j as int]));
                        assert(cong_upto(tv, m, i as int) + cong_row(tv, m, i as int, j as int + 1)
                            =~= pre.push(pair_text(tv[i as int], tv[j as int])));
                        assert forall|p: int| 0 <= p < out@.len() implies out@[p]@ == (cong_upto(
                            tv,
                            m,
                            i as int,
                        ) + cong_row(tv, m, i as int, j as int + 1))[p] by {
                            if p < old_out.len() {
                                assert(out@[p] == old_out[p]);
                            } else {
                                assert(out@[p] == line);
                            }
                        }
                    }
                } else {
                    proof {
                        assert(cong_upto(tv, m, i as int) + cong_row(tv, m, i as int, j as int + 1)
                            =~= pre);
                    }
                }
                j = j + 1;
            }
            proof {
                assert(cong_upto(tv, m, i as int + 1) == cong_upto(tv, m, i as int) + cong_row(
                    tv,
                    m,
                    i as int,
                    tv.len() as int,
                ));
            }
            i = i + 1;
        }
        out
    }
}

} // verus!
