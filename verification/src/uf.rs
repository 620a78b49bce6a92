//! Equivalence partition over subterm indices, backed by the array
//! union-find of the `disjoint_sets` crate. The structure is modelled by
//! the sequence of set representatives, one entry per element; two
//! elements are in the same set exactly when their entries are equal.

use vstd::prelude::*;

verus! {

/// Holder for the union-find of `disjoint_sets`. The element-type trait
/// bound of `disjoint_sets::UnionFind` cannot be declared to the
/// verifier, so the collection sits in a field the verifier does not see
/// and is reached only through the trusted functions below.
#[verifier::external_body]
pub struct Partition {
    inner: disjoint_sets::UnionFind<usize>,
}

/// The representative of each element's set, by element index.
pub uninterp spec fn uf_model(u: Partition) -> Seq<int>;

/// Relies on disjoint_sets::UnionFind::new: every element starts as the
/// representative of its own singleton set.
#[verifier::external_body]
pub(crate) fn uf_new(size: usize) -> (u: Partition)
    ensures
        uf_model(u) == Seq::new(size as nat, |i: int| i),
{
    Partition { inner: disjoint_sets::UnionFind::new(size) }
}

/// Relies on disjoint_sets::UnionFind::find: returns the current
/// representative of the element's set (path compression does not change
/// any set's representative).
#[verifier::external_body]
pub(crate) fn uf_find(u: &Partition, a: usize) -> (r: usize)
    requires
        (a as int) < uf_model(*u).len(),
    ensures
        r as int == uf_model(*u)[a as int],
{
    u.inner.find(a)
}

/// The relabelling a union performs: every element whose set was
/// represented by `ra` or `rb` is now represented by `r`.
pub open spec fn relabel(m: Seq<int>, ra: int, rb: int, r: int) -> Seq<int> {
    Seq::new(m.len(), |i: int| if m[i] == ra || m[i] == rb { r } else { m[i] })
}

/// Relies on disjoint_sets::UnionFind::union: joins the sets of the two
/// elements and reports whether they were distinct. Which of the two old
/// representatives survives is decided by rank, so only the disjunction
/// is promised.
#[verifier::external_body]
pub(crate) fn uf_union(u: &mut Partition, a: usize, b: usize) -> (r: bool)
    requires
        (a as int) < uf_model(*old(u)).len(),
        (b as int) < uf_model(*old(u)).len(),
    ensures
        uf_model(*final(u)).len() == uf_model(*old(u)).len(),
        r == (uf_model(*old(u))[a as int] != uf_model(*old(u))[b as int]),
        uf_model(*old(u))[a as int] == uf_model(*old(u))[b as int] ==> uf_model(*final(u))
            == uf_model(*old(u)),
        uf_model(*old(u))[a as int] != uf_model(*old(u))[b as int] ==> uf_model(*final(u))
            == relabel(
            uf_model(*old(u)),
            uf_model(*old(u))[a as int],
            uf_model(*old(u))[b as int],
            uf_model(*old(u))[a as int],
        ) || uf_model(*final(u)) == relabel(
            uf_model(*old(u)),
            uf_model(*old(u))[a as int],
            uf_model(*old(u))[b as int],
            uf_model(*old(u))[b as int],
        ),
{
    u.inner.union(a, b)
}

/// Are `x` and `y` in the same set of the partition `m`?
pub open spec fn same_class(m: Seq<int>, x: int, y: int) -> bool {
    m[x] == m[y]
}

/// The number of distinct sets in the partition.
pub open spec fn class_count(m: Seq<int>) -> nat {
    m.to_set().len()
}

/// The class relation induced by the partition is reflexive, symmetric,
/// and transitive over the element indices, whatever the state of
/// processing.
pub proof fn lemma_partition_equivalence(m: Seq<int>)
    ensures
        forall|x: int| 0 <= x < m.len() ==> same_class(m, x, x),
        forall|x: int, y: int|
            0 <= x < m.len() && 0 <= y < m.len() && same_class(m, x, y) ==> same_class(m, y, x),
        forall|x: int, y: int, z: int|
            0 <= x < m.len() && 0 <= y < m.len() && 0 <= z < m.len() && same_class(m, x, y)
                && same_class(m, y, z) ==> same_class(m, x, z),
{
}

/// After a union of two distinct sets, two elements share a set exactly
/// when they already did, or when one sat with `a` and the other with `b`.
pub proof fn lemma_union_join(m0: Seq<int>, m1: Seq<int>, a: int, b: int)
    requires
        0 <= a < m0.len(),
        0 <= b < m0.len(),
        m0[a] != m0[b],
        m1 == relabel(m0, m0[a], m0[b], m0[a]) || m1 == relabel(m0, m0[a], m0[b], m0[b]),
    ensures
        m1.len() == m0.len(),
        forall|x: int, y: int|
            0 <= x < m0.len() && 0 <= y < m0.len() ==> (same_class(m1, x, y) <==> (same_class(
                m0,
                x,
                y,
            ) || (same_class(m0, x, a) && same_class(m0, b, y)) || (same_class(m0, x, b)
                && same_class(m0, a, y)))),
{
}

/// A union of two distinct sets lowers the number of sets by exactly one.
pub proof fn lemma_union_count(m0: Seq<int>, m1: Seq<int>, a: int, b: int)
    requires
        0 <= a < m0.len(),
        0 <= b < m0.len(),
        m0[a] != m0[b],
        m1 == relabel(m0, m0[a], m0[b], m0[a]) || m1 == relabel(m0, m0[a], m0[b], m0[b]),
    ensures
        class_count(m1) + 1 == class_count(m0),
{
    broadcast use vstd::seq_lib::seq_to_set_is_finite;
    broadcast use vstd::set::group_set_axioms;

    let keep = if m1 == relabel(m0, m0[a], m0[b], m0[a]) {
        m0[a]
    } else {
        m0[b]
    };
    let lose = if keep == m0[a] {
        m0[b]
    } else {
        m0[a]
    };
    assert(m1.to_set() =~= m0.to_set().remove(lose)) by {
        assert forall|v: int| m1.to_set().contains(v) implies m0.to_set().contains(v) && v
            != lose by {
            let i = choose|i: int| 0 <= i < m1.len() && m1[i] == v;
            assert(m0.to_set().contains(m0[i]));
            if m0[i] == m0[a] || m0[i] == m0[b] {
                assert(v == keep);
                assert(m0.to_set().contains(keep)) by {
                    if keep == m0[a] {
                        assert(m0.contains(m0[a]));
                    } else {
                        assert(m0.contains(m0[b]));
                    }
                }
            }
        }
        assert forall|v: int| m0.to_set().contains(v) && v != lose implies m1.to_set().contains(
            v,
        ) by {
            let i = choose|i: int| 0 <= i < m0.len() && m0[i] == v;
            if v == keep {
                assert(m1[i] == keep);
            } else {
                assert(m1[i] == v);
            }
            assert(m1.contains(v));
        }
    }
    assert(m0.to_set().contains(lose)) by {
        if lose == m0[a] {
            assert(m0.contains(m0[a]));
        } else {
            assert(m0.contains(m0[b]));
        }
    }
}

} // verus!
