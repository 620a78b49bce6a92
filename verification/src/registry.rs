//! Subterm extraction: computes the registry of every distinct subterm
//! occurring in a batch of relations, deduplicated by structural equality,
//! each entry holding a stable index given by its position.

use vstd::prelude::*;

use crate::term::Relation;
use crate::term::RelationView;
use crate::term::Term;
use crate::term::TermView;
use crate::term::arity_sum;
use crate::term::deep_copy;
use crate::term::lemma_concat_contains;
use crate::term::lemma_trav_first;
use crate::term::lemma_views_of;
use crate::term::term_eq;
use crate::term::trav;
use crate::term::views_of;

verus! {

/// The mathematical values of a sequence of relations, in order.
pub open spec fn rel_views(rs: Seq<Relation>) -> Seq<RelationView> {
    rs.map_values(|r: Relation| r@)
}

/// Concatenated traversal of both sides of every relation in the batch.
pub open spec fn batch_trav(rs: Seq<RelationView>) -> Seq<TermView>
    decreases rs.len(),
{
    if rs.len() == 0 {
        Seq::empty()
    } else {
        batch_trav(rs.drop_last()) + trav(rs.last().left) + trav(rs.last().right)
    }
}

/// Keep the first occurrence of every element, in order of first occurrence.
pub open spec fn dedup(s: Seq<TermView>) -> Seq<TermView>
    decreases s.len(),
{
    if s.len() == 0 {
        Seq::empty()
    } else {
        let rest = dedup(s.drop_last());
        if rest.contains(s.last()) {
            rest
        } else {
            rest.push(s.last())
        }
    }
}

/// Deduplication keeps exactly the distinct elements, without repetition.
pub proof fn lemma_dedup(s: Seq<TermView>)
    ensures
        dedup(s).no_duplicates(),
        forall|x: TermView| dedup(s).contains(x) <==> s.contains(x),
        dedup(s).len() <= s.len(),
        arity_sum(dedup(s)) <= arity_sum(s),
    decreases s.len(),
{
    if s.len() > 0 {
        lemma_dedup(s.drop_last());
        let rest = dedup(s.drop_last());
        assert(arity_sum(s) == arity_sum(s.drop_last()) + s.last().args.len());
        if !rest.contains(s.last()) {
            assert(rest.push(s.last()).drop_last() =~= rest);
            assert(rest.push(s.last()).last() == s.last());
            assert(arity_sum(rest.push(s.last())) == arity_sum(rest) + s.last().args.len());
        }
        assert forall|x: TermView| s.contains(x) implies dedup(s).contains(x) by {
            let i = choose|i: int| 0 <= i < s.len() && s[i] == x;
            if i < s.len() - 1 {
                assert(s.drop_last()[i] == x);
                assert(s.drop_last().contains(x));
                if !rest.contains(s.last()) {
                    assert(rest.contains(x));
                    let j = choose|j: int| 0 <= j < rest.len() && rest[j] == x;
                    assert(dedup(s)[j] == x);
                }
            } else {
                if rest.contains(s.last()) {
                    assert(s.drop_last().contains(x));
                } else {
                    assert(dedup(s).last() == x);
                }
            }
        }
        assert forall|x: TermView| dedup(s).contains(x) implies s.contains(x) by {
            let i = choose|i: int| 0 <= i < dedup(s).len() && dedup(s)[i] == x;
            if !rest.contains(s.last()) && i == dedup(s).len() - 1 {
                assert(s.last() == x);
            } else {
                assert(rest[i] == x);
                assert(rest.contains(x));
                assert(s.drop_last().contains(x));
                let j = choose|j: int| 0 <= j < s.drop_last().len() && s.drop_last()[j] == x;
                assert(s[j] == s.drop_last()[j]);
                assert(s.contains(x));
            }
        }
    }
}

/// Both sides of every relation, and every argument of every registered
/// term, occur in the batch traversal.
pub proof fn lemma_batch_trav_closed(rs: Seq<RelationView>)
    ensures
        forall|j: int|
            0 <= j < rs.len() ==> batch_trav(rs).contains(#[trigger] rs[j].left) && batch_trav(
                rs,
            ).contains(rs[j].right),
        forall|x: TermView, k: int|
            batch_trav(rs).contains(x) && 0 <= k < x.args.len() ==> batch_trav(rs).contains(
                #[trigger] x.args[k],
            ),
    decreases rs.len(),
{
    if rs.len() > 0 {
        lemma_batch_trav_closed(rs.drop_last());
        let pre = batch_trav(rs.drop_last());
        let l = trav(rs.last().left);
        let r = trav(rs.last().right);
        lemma_trav_first(rs.last().left);
        lemma_trav_first(rs.last().right);
        crate::term::lemma_trav_args_closed(rs.last().left);
        crate::term::lemma_trav_args_closed(rs.last().right);
        assert forall|j: int| 0 <= j < rs.len() implies batch_trav(rs).contains(
            #[trigger] rs[j].left,
        ) && batch_trav(rs).contains(rs[j].right) by {
            if j < rs.len() - 1 {
                assert(rs.drop_last()[j] == rs[j]);
                lemma_concat_contains(pre, l, rs[j].left);
                lemma_concat_contains(pre + l, r, rs[j].left);
                lemma_concat_contains(pre, l, rs[j].right);
                lemma_concat_contains(pre + l, r, rs[j].right);
            } else {
                lemma_concat_contains(pre, l, rs[j].left);
                lemma_concat_contains(pre + l, r, rs[j].left);
                lemma_concat_contains(pre, l, rs[j].right);
                lemma_concat_contains(pre + l, r, rs[j].right);
            }
        }
        assert forall|x: TermView, k: int|
            batch_trav(rs).contains(x) && 0 <= k < x.args.len() implies batch_trav(rs).contains(
            #[trigger] x.args[k],
        ) by {
            lemma_concat_contains(pre + l, r, x);
            lemma_concat_contains(pre, l, x);
            lemma_concat_contains(pre, l, x.args[k]);
            lemma_concat_contains(pre + l, r, x.args[k]);
        }
    }
}

/// A batch traversal has fewer argument positions than nodes.
pub proof fn lemma_batch_arity(rs: Seq<RelationView>)
    ensures
        arity_sum(batch_trav(rs)) <= batch_trav(rs).len(),
    decreases rs.len(),
{
    if rs.len() > 0 {
        lemma_batch_arity(rs.drop_last());
        let pre = batch_trav(rs.drop_last());
        let l = trav(rs.last().left);
        let r = trav(rs.last().right);
        crate::term::lemma_arity_sum_trav(rs.last().left);
        crate::term::lemma_arity_sum_trav(rs.last().right);
        crate::term::lemma_arity_sum_concat(pre, l);
        crate::term::lemma_arity_sum_concat(pre + l, r);
    }
}

/// A term occurs in the batch traversal exactly when it occurs in the
/// traversal of some relation's side.
pub proof fn lemma_batch_trav_membership(rs: Seq<RelationView>, x: TermView)
    ensures
        batch_trav(rs).contains(x) <==> exists|j: int|
            0 <= j < rs.len() && (trav((#[trigger] rs[j]).left).contains(x) || trav(
                rs[j].right,
            ).contains(x)),
    decreases rs.len(),
{
    if rs.len() > 0 {
        lemma_batch_trav_membership(rs.drop_last(), x);
        let pre = batch_trav(rs.drop_last());
        let l = trav(rs.last().left);
        let r = trav(rs.last().right);
        lemma_concat_contains(pre, l, x);
        lemma_concat_contains(pre + l, r, x);
        if batch_trav(rs).contains(x) {
            if pre.contains(x) {
                let j = choose|j: int|
                    0 <= j < rs.drop_last().len() && (trav(
                        (#[trigger] rs.drop_last()[j]).left,
                    ).contains(x) || trav(rs.drop_last()[j].right).contains(x));
                assert(rs[j] == rs.drop_last()[j]);
                assert(trav(rs[j].left).contains(x) || trav(rs[j].right).contains(x));
            } else {
                assert(trav(rs[rs.len() - 1].left).contains(x) || trav(
                    rs[rs.len() - 1].right,
                ).contains(x));
            }
        }
        if exists|j: int|
            0 <= j < rs.len() && (trav((#[trigger] rs[j]).left).contains(x) || trav(
                rs[j].right,
            ).contains(x)) {
            let j = choose|j: int|
                0 <= j < rs.len() && (trav((#[trigger] rs[j]).left).contains(x) || trav(
                    rs[j].right,
                ).contains(x));
            if j < rs.len() - 1 {
                assert(rs.drop_last()[j] == rs[j]);
                assert(pre.contains(x));
            }
        }
    }
}

/// Extraction completeness: the registry of a batch holds both sides of
/// every relation, it is closed under immediate (hence all transitive)
/// arguments, and it holds each entry exactly once.
pub proof fn lemma_extraction_complete(rs: Seq<RelationView>)
    ensures
        dedup(batch_trav(rs)).no_duplicates(),
        forall|j: int|
            0 <= j < rs.len() ==> dedup(batch_trav(rs)).contains((#[trigger] rs[j]).left) && dedup(
                batch_trav(rs),
            ).contains(rs[j].right),
        forall|x: TermView, k: int|
            dedup(batch_trav(rs)).contains(x) && 0 <= k < x.args.len() ==> dedup(
                batch_trav(rs),
            ).contains(#[trigger] x.args[k]),
{
    lemma_dedup(batch_trav(rs));
    lemma_batch_trav_closed(rs);
    assert forall|j: int| 0 <= j < rs.len() implies dedup(batch_trav(rs)).contains(
        (#[trigger] rs[j]).left,
    ) && dedup(batch_trav(rs)).contains(rs[j].right) by {
        assert(batch_trav(rs).contains(rs[j].left));
        assert(batch_trav(rs).contains(rs[j].right));
    }
    assert forall|x: TermView, k: int|
        dedup(batch_trav(rs)).contains(x) && 0 <= k < x.args.len() implies dedup(
        batch_trav(rs),
    ).contains(#[trigger] x.args[k]) by {
        assert(batch_trav(rs).contains(x));
        assert(batch_trav(rs).contains(x.args[k]));
    }
}

/// Order independence of extraction: two batches holding the same
/// relations, in whatever order, yield registries holding exactly the
/// same terms.
pub proof fn lemma_registry_order_independent(rs1: Seq<RelationView>, rs2: Seq<RelationView>)
    requires
        rs1.to_multiset() == rs2.to_multiset(),
    ensures
        forall|x: TermView|
            dedup(batch_trav(rs1)).contains(x) <==> dedup(batch_trav(rs2)).contains(x),
{
    lemma_dedup(batch_trav(rs1));
    lemma_dedup(batch_trav(rs2));
    rs1.to_multiset_ensures();
    rs2.to_multiset_ensures();
    assert forall|x: TermView|
        dedup(batch_trav(rs1)).contains(x) <==> dedup(batch_trav(rs2)).contains(x) by {
        lemma_batch_trav_membership(rs1, x);
        lemma_batch_trav_membership(rs2, x);
        if batch_trav(rs1).contains(x) {
            let j = choose|j: int|
                0 <= j < rs1.len() && (trav((#[trigger] rs1[j]).left).contains(x) || trav(
                    rs1[j].right,
                ).contains(x));
            assert(rs1.contains(rs1[j]));
            assert(rs1.to_multiset().count(rs1[j]) > 0);
            assert(rs2.to_multiset().count(rs1[j]) > 0);
            assert(rs2.contains(rs1[j]));
            let j2 = choose|j2: int| 0 <= j2 < rs2.len() && rs2[j2] == rs1[j];
            assert(trav(rs2[j2].left).contains(x) || trav(rs2[j2].right).contains(x));
        }
        if batch_trav(rs2).contains(x) {
            let j = choose|j: int|
                0 <= j < rs2.len() && (trav((#[trigger] rs2[j]).left).contains(x) || trav(
                    rs2[j].right,
                ).contains(x));
            assert(rs2.contains(rs2[j]));
            assert(rs2.to_multiset().count(rs2[j]) > 0);
            assert(rs1.to_multiset().count(rs2[j]) > 0);
            assert(rs1.contains(rs2[j]));
            let j2 = choose|j2: int| 0 <= j2 < rs1.len() && rs1[j2] == rs2[j];
            assert(trav(rs1[j2].left).contains(x) || trav(rs1[j2].right).contains(x));
        }
    }
}

/// Well-formed registry: no entry repeats, and the direct arguments of
/// every entry are themselves entries.
pub open spec fn registry_wf(tv: Seq<TermView>) -> bool {
    &&& tv.no_duplicates()
    &&& forall|i: int, k: int|
        0 <= i < tv.len() && 0 <= k < tv[i].args.len() ==> tv.contains(#[trigger] tv[i].args[k])
}

/// Two positions of a duplicate-free registry holding one value agree.
pub proof fn lemma_unique_position(tv: Seq<TermView>, a: int, c: int)
    requires
        tv.no_duplicates(),
        0 <= a < tv.len(),
        0 <= c < tv.len(),
        tv[a] == tv[c],
    ensures
        a == c,
{
}

/// For a held value, `index_of` names a valid position holding it.
pub proof fn lemma_index_of(tv: Seq<TermView>, x: TermView)
    requires
        tv.contains(x),
    ensures
        0 <= tv.index_of(x) < tv.len(),
        tv[tv.index_of(x)] == x,
{
    let w = choose|w: int| 0 <= w < tv.len() && tv[w] == x;
}

/// Does the registry hold a term structurally equal to `t`?
pub fn contains_term(v: &Vec<Term>, t: &Term) -> (r: bool)
    ensures
        r == views_of(v@).contains(t@),
{
    proof {
        lemma_views_of(v@);
    }
    let n = v.len();
    let mut i: usize = 0;
    while i < n
        invariant
            n == v@.len(),
            i <= n,
            forall|k: int| 0 <= k < i ==> views_of(v@)[k] != t@,
        decreases n - i,
    {
        proof {
            lemma_views_of(v@);
        }
        if term_eq(&v[i], t) {
            proof {
                assert(views_of(v@)[i as int] == t@);
            }
            return true;
        }
        i = i + 1;
    }
    proof {
        if views_of(v@).contains(t@) {
            let j = choose|j: int| 0 <= j < views_of(v@).len() && views_of(v@)[j] == t@;
            assert(false);
        }
    }
    false
}

/// The index of the entry structurally equal to `t`.
pub fn position_of_term(v: &Vec<Term>, t: &Term) -> (r: usize)
    requires
        views_of(v@).contains(t@),
    ensures
        r < v@.len(),
        views_of(v@)[r as int] == t@,
    decreases v@.len(),
{
    proof {
        lemma_views_of(v@);
    }
    let n = v.len();
    let mut i: usize = 0;
    while i < n
        invariant
            n == v@.len(),
            i <= n,
            views_of(v@).contains(t@),
            forall|k: int| 0 <= k < i ==> views_of(v@)[k] != t@,
        decreases n - i,
    {
        proof {
            lemma_views_of(v@);
        }
        if term_eq(&v[i], t) {
            return i;
        }
        i = i + 1;
    }
    proof {
        let j = choose|j: int| 0 <= j < views_of(v@).len() && views_of(v@)[j] == t@;
        assert(false);
    }
    0
}

/// Extract the registry of a batch: every distinct subterm occurring on
/// either side of any relation, deduplicated by structural equality, in
/// order of first occurrence of the depth-first traversal.
pub fn compute_subterms(relations: &Vec<Relation>) -> (r: Vec<Term>)
    ensures
        views_of(r@) == dedup(batch_trav(rel_views(relations@))),
{
    let mut out: Vec<Term> = Vec::new();
    let nr = relations.len();
    let mut i: usize = 0;
    proof {
        lemma_views_of(out@);
        assert(rel_views(relations@).take(0) =~= Seq::<RelationView>::empty());
        assert(views_of(out@) =~= dedup(batch_trav(rel_views(relations@).take(0))));
    }
    while i < nr
        invariant
            nr == relations@.len(),
            i <= nr,
            views_of(out@) == dedup(batch_trav(rel_views(relations@).take(i as int))),
        decreases nr - i,
    {
        let st = relations[i].subterms();
        let ghost rvs = rel_views(relations@);
        let ghost prefix = batch_trav(rvs.take(i as int));
        let ghost stv = views_of(st.terms@);
        let nt = st.terms.len();
        let mut j: usize = 0;
        proof {
            lemma_views_of(st.terms@);
            assert(stv.take(0) =~= Seq::<TermView>::empty());
            assert(prefix + stv.take(0) =~= prefix);
        }
        while j < nt
            invariant
                nt == st.terms@.len(),
                j <= nt,
                stv == views_of(st.terms@),
                views_of(out@) == dedup(prefix + stv.take(j as int)),
            decreases nt - j,
        {
            proof {
                lemma_views_of(st.terms@);
            }
            let ghost before = prefix + stv.take(j as int);
            let ghost after = prefix + stv.take(j as int + 1);
            proof {
                assert(after =~= before.push(stv[j as int]));
                assert(after.drop_last() =~= before);
                assert(after.last() == stv[j as int]);
            }
            if !contains_term(&out, &st.terms[j]) {
                let ghost old_out = out@;
                let c = deep_copy(&st.terms[j]);
                out.push(c);
                proof {
                    lemma_views_of(old_out);
                    lemma_views_of(out@);
                    assert(views_of(out@) =~= views_of(old_out).push(stv[j as int]));
                    assert(views_of(out@) =~= dedup(after));
                }
            } else {
                proof {
                    assert(views_of(out@) =~= dedup(after));
                }
            }
            j = j + 1;
        }
        proof {
            assert(stv.take(nt as int) =~= stv);
            assert(rvs.take(i as int + 1).drop_last() =~= rvs.take(i as int));
            assert(rvs.take(i as int + 1).last() == rvs[i as int]);
            assert(rvs[i as int] == relations@[i as int]@);
            assert(batch_trav(rvs.take(i as int + 1)) =~= prefix + stv) by {
                assert(batch_trav(rvs.take(i as int + 1)) == batch_trav(rvs.take(i as int)) + trav(
                    rvs[i as int].left,
                ) + trav(rvs[i as int].right));
                assert(stv =~= trav(rvs[i as int].left) + trav(rvs[i as int].right));
            }
        }
        i = i + 1;
    }
    proof {
        assert(rel_views(relations@).take(nr as int) =~= rel_views(relations@));
    }
    out
}

} // verus!
