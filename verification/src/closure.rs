//! The congruence closure as a mathematical object: the least
//! equivalence relation over registry indices that contains a given base
//! relation and is closed under function congruence (same symbol and
//! pairwise related arguments imply related applications). It is encoded
//! as the intersection of all relations closed under those rules.

use vstd::prelude::*;

use crate::graph::child_idx;
use crate::term::TermView;

verus! {

/// Is `r` an equivalence relation over the indices below `n`?
pub open spec fn equiv_rel(n: int, r: spec_fn(int, int) -> bool) -> bool {
    &&& forall|x: int| 0 <= x < n ==> #[trigger] r(x, x)
    &&& forall|x: int, y: int| #[trigger] r(x, y) ==> r(y, x)
    &&& forall|x: int, y: int, z: int|
        #![trigger r(x, y), r(y, z)]
        r(x, y) && r(y, z) ==> r(x, z)
}

/// Does `r` respect congruence on the registry `tv`: whenever two
/// entries apply the same symbol to pairwise related arguments, are the
/// entries related?
pub open spec fn respects_congruence(tv: Seq<TermView>, r: spec_fn(int, int) -> bool) -> bool {
    forall|i: int, j: int|
        0 <= i < tv.len() && 0 <= j < tv.len() && tv[i].name == tv[j].name && tv[i].args.len()
            == tv[j].args.len() && (forall|k: int|
            0 <= k < tv[i].args.len() ==> #[trigger] r(child_idx(tv, i, k), child_idx(tv, j, k)))
            ==> #[trigger] r(i, j)
}

/// Does `r` contain the base relation `b`?
pub open spec fn above(b: spec_fn(int, int) -> bool, r: spec_fn(int, int) -> bool) -> bool {
    forall|x: int, y: int| #[trigger] b(x, y) ==> r(x, y)
}

/// Is `r` an equivalence containing `b` and closed under congruence?
pub open spec fn cc_closed(
    tv: Seq<TermView>,
    b: spec_fn(int, int) -> bool,
    r: spec_fn(int, int) -> bool,
) -> bool {
    equiv_rel(tv.len() as int, r) && respects_congruence(tv, r) && above(b, r)
}

/// Are `x` and `y` related by the congruence closure of `b` over `tv`,
/// that is by every closed relation containing `b`?
pub open spec fn in_cc(tv: Seq<TermView>, b: spec_fn(int, int) -> bool, x: int, y: int) -> bool {
    forall|r: spec_fn(int, int) -> bool| #[trigger] cc_closed(tv, b, r) ==> r(x, y)
}

/// Base pairs are in the closure.
pub proof fn lemma_cc_base(tv: Seq<TermView>, b: spec_fn(int, int) -> bool, x: int, y: int)
    requires
        b(x, y),
    ensures
        in_cc(tv, b, x, y),
{
}

/// The closure is reflexive on the registry.
pub proof fn lemma_cc_refl(tv: Seq<TermView>, b: spec_fn(int, int) -> bool, x: int)
    requires
        0 <= x < tv.len(),
    ensures
        in_cc(tv, b, x, x),
{
}

/// The closure is symmetric.
pub proof fn lemma_cc_sym(tv: Seq<TermView>, b: spec_fn(int, int) -> bool, x: int, y: int)
    requires
        in_cc(tv, b, x, y),
    ensures
        in_cc(tv, b, y, x),
{
    assert forall|r: spec_fn(int, int) -> bool| #[trigger] cc_closed(tv, b, r) implies r(y, x) by {
        assert(r(x, y));
    }
}

/// The closure is transitive.
pub proof fn lemma_cc_trans(tv: Seq<TermView>, b: spec_fn(int, int) -> bool, x: int, y: int, z: int)
    requires
        in_cc(tv, b, x, y),
        in_cc(tv, b, y, z),
    ensures
        in_cc(tv, b, x, z),
{
    assert forall|r: spec_fn(int, int) -> bool| #[trigger] cc_closed(tv, b, r) implies r(x, z) by {
        assert(r(x, y));
        assert(r(y, z));
    }
}

/// The closure respects congruence: same symbol and pairwise closed
/// arguments put two applications in the closure.
pub proof fn lemma_cc_cong(tv: Seq<TermView>, b: spec_fn(int, int) -> bool, i: int, j: int)
    requires
        0 <= i < tv.len(),
        0 <= j < tv.len(),
        tv[i].name == tv[j].name,
        tv[i].args.len() == tv[j].args.len(),
        forall|k: int|
            0 <= k < tv[i].args.len() ==> in_cc(
                tv,
                b,
                #[trigger] child_idx(tv, i, k),
                child_idx(tv, j, k),
            ),
    ensures
        in_cc(tv, b, i, j),
{
    assert forall|r: spec_fn(int, int) -> bool| #[trigger] cc_closed(tv, b, r) implies r(i, j) by {
        assert forall|k: int| 0 <= k < tv[i].args.len() implies #[trigger] r(
            child_idx(tv, i, k),
            child_idx(tv, j, k),
        ) by {
            assert(in_cc(tv, b, child_idx(tv, i, k), child_idx(tv, j, k)));
        }
    }
}

/// Closures collapse: if every base pair of `b1` lies in the closure of
/// `b2`, then the whole closure of `b1` lies in the closure of `b2`.
pub proof fn lemma_cc_squash(
    tv: Seq<TermView>,
    b1: spec_fn(int, int) -> bool,
    b2: spec_fn(int, int) -> bool,
)
    requires
        forall|x: int, y: int| #[trigger] b1(x, y) ==> in_cc(tv, b2, x, y),
    ensures
        forall|x: int, y: int| #[trigger] in_cc(tv, b1, x, y) ==> in_cc(tv, b2, x, y),
{
    assert forall|x: int, y: int| #[trigger] in_cc(tv, b1, x, y) implies in_cc(tv, b2, x, y) by {
        assert forall|r: spec_fn(int, int) -> bool| #[trigger] cc_closed(tv, b2, r) implies r(
            x,
            y,
        ) by {
            assert forall|u: int, v: int| #[trigger] b1(u, v) implies r(u, v) by {
                assert(in_cc(tv, b2, u, v));
            }
            assert(above(b1, r));
            assert(cc_closed(tv, b1, r));
        }
    }
}

} // verus!
