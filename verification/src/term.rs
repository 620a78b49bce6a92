//! Term and relation model: immutable first-order terms (a symbol with an
//! ordered sequence of argument terms), equality/disequality literals, and
//! the depth-first subterm traversal they expose.

use vstd::prelude::*;

verus! {

/// Mathematical value of a term: a symbol name with an ordered sequence
/// of argument values. A term of arity zero stands for a variable or a
/// constant.
#[verifier::ext_equal]
pub ghost struct TermView {
    pub name: Seq<char>,
    pub args: Seq<TermView>,
}

/// A first-order term: a function symbol applied to an ordered list of
/// argument terms. Terms are immutable and compared structurally.
#[derive(Debug)]
pub struct Term {
    pub name: String,
    pub arguments: Vec<Term>,
}

impl View for Term {
    type V = TermView;

    open spec fn view(&self) -> TermView {
        term_view(*self)
    }
}

/// The mathematical value of an executable term.
pub open spec fn term_view(t: Term) -> TermView
    decreases t,
{
    TermView { name: t.name@, args: views_of(t.arguments@) }
}

/// The mathematical values of a sequence of executable terms, in order.
pub open spec fn views_of(ts: Seq<Term>) -> Seq<TermView>
    decreases ts,
{
    if ts.len() == 0 {
        Seq::empty()
    } else {
        views_of(ts.drop_last()).push(term_view(ts.last()))
    }
}

/// `views_of` maps each element to its view and keeps the length.
pub broadcast proof fn lemma_views_of(ts: Seq<Term>)
    ensures
        (#[trigger] views_of(ts)).len() == ts.len(),
        forall|i: int| 0 <= i < ts.len() ==> views_of(ts)[i] == term_view(ts[i]),
    decreases ts.len(),
{
    if ts.len() > 0 {
        lemma_views_of(ts.drop_last());
    }
}

impl Term {
    /// Build a term of arity zero: a variable or constant symbol.
    pub fn var(name: &str) -> (t: Term)
        ensures
            t@.name == name@,
            t@.args.len() == 0,
    {
        let t = Term { name: name.to_owned(), arguments: Vec::new() };
        proof {
            lemma_views_of(t.arguments@);
        }
        t
    }

    /// Build an application of `name` to the ordered argument list `args`.
    pub fn fun(name: &str, args: Vec<Term>) -> (t: Term)
        ensures
            t@.name == name@,
            t@.args =~= args@.map_values(|a: Term| a@),
    {
        let t = Term { name: name.to_owned(), arguments: args };
        proof {
            lemma_views_of(t.arguments@);
            assert(t@.args =~= t.arguments@.map_values(|a: Term| a@));
        }
        t
    }
}

/// Structural equality of two terms: same symbol and pointwise equal
/// argument lists.
pub fn term_eq(a: &Term, b: &Term) -> (r: bool)
    ensures
        r == (a@ == b@),
    decreases *a,
{
    proof {
        lemma_views_of(a.arguments@);
        lemma_views_of(b.arguments@);
    }
    if !(a.name == b.name) {
        return false;
    }
    if a.arguments.len() != b.arguments.len() {
        return false;
    }
    let n = a.arguments.len();
    let mut i: usize = 0;
    while i < n
        invariant
            n == a.arguments.len() == b.arguments.len(),
            i <= n,
            forall|k: int| 0 <= k < i ==> a@.args[k] == b@.args[k],
        decreases n - i,
    {
        proof {
            lemma_views_of(a.arguments@);
            lemma_views_of(b.arguments@);
        }
        if !term_eq(&a.arguments[i], &b.arguments[i]) {
            proof {
                assert(a.arguments@[i as int]@ != b.arguments@[i as int]@);
                assert(a@.args[i as int] == a.arguments@[i as int]@);
                assert(b@.args[i as int] == b.arguments@[i as int]@);
                assert(a@ != b@);
            }
            return false;
        }
        i = i + 1;
    }
    proof {
        lemma_views_of(a.arguments@);
        lemma_views_of(b.arguments@);
        assert(a@.args =~= b@.args);
        assert(a@ =~= b@);
    }
    true
}

/// Deep structural copy of a term.
pub fn deep_copy(t: &Term) -> (r: Term)
    ensures
        r@ == t@,
    decreases *t,
{
    let mut cargs: Vec<Term> = Vec::new();
    let n = t.arguments.len();
    let mut i: usize = 0;
    while i < n
        invariant
            n == t.arguments.len(),
            i <= n,
            cargs@.len() == i,
            forall|k: int| 0 <= k < i ==> cargs@[k]@ == t.arguments@[k]@,
        decreases n - i,
    {
        let c = deep_copy(&t.arguments[i]);
        cargs.push(c);
        i = i + 1;
    }
    let r = Term { name: t.name.clone(), arguments: cargs };
    proof {
        lemma_views_of(r.arguments@);
        lemma_views_of(t.arguments@);
        assert(r@.args =~= t@.args);
        assert(r@ =~= t@);
    }
    r
}

/// Depth-first traversal of a term: the term itself, then the traversals
/// of its arguments, last argument first. This is the order in which a
/// stack that pushes the arguments left to right pops them.
pub open spec fn trav(t: TermView) -> Seq<TermView>
    decreases t,
{
    seq![t] + trav_stack(t.args)
}

/// Traversal of a stack of pending terms, topmost (last) element first.
pub open spec fn trav_stack(ts: Seq<TermView>) -> Seq<TermView>
    decreases ts,
{
    if ts.len() == 0 {
        Seq::empty()
    } else {
        trav(ts.last()) + trav_stack(ts.drop_last())
    }
}

/// A traversal visits at least its root, which comes first.
pub proof fn lemma_trav_first(t: TermView)
    ensures
        trav(t).len() >= 1,
        trav(t)[0] == t,
        trav(t).contains(t),
{
    assert(trav(t)[0] == t);
}

/// Traversing a stack `a + b` traverses the top part `b`, then `a`.
pub proof fn lemma_trav_stack_concat(a: Seq<TermView>, b: Seq<TermView>)
    ensures
        trav_stack(a + b) =~= trav_stack(b) + trav_stack(a),
    decreases b.len(),
{
    if b.len() == 0 {
        assert(a + b =~= a);
    } else {
        lemma_trav_stack_concat(a, b.drop_last());
        assert((a + b).last() == b.last());
        assert((a + b).drop_last() =~= a + b.drop_last());
    }
}

/// Membership in a concatenation comes from one of the two parts.
pub proof fn lemma_concat_contains(a: Seq<TermView>, b: Seq<TermView>, x: TermView)
    ensures
        (a + b).contains(x) <==> a.contains(x) || b.contains(x),
{
    if a.contains(x) {
        let i = choose|i: int| 0 <= i < a.len() && a[i] == x;
        assert((a + b)[i] == x);
    }
    if b.contains(x) {
        let i = choose|i: int| 0 <= i < b.len() && b[i] == x;
        assert((a + b)[a.len() + i] == x);
    }
    if (a + b).contains(x) {
        let i = choose|i: int| 0 <= i < (a + b).len() && (a + b)[i] == x;
        if i < a.len() {
            assert(a[i] == x);
        } else {
            assert(b[i - a.len()] == x);
        }
    }
}

/// Every stacked term occurs in the traversal of the stack.
pub proof fn lemma_trav_stack_contains_all(ts: Seq<TermView>)
    ensures
        forall|i: int| 0 <= i < ts.len() ==> trav_stack(ts).contains(#[trigger] ts[i]),
    decreases ts,
{
    if ts.len() > 0 {
        lemma_trav_stack_contains_all(ts.drop_last());
        lemma_trav_first(ts.last());
        assert forall|i: int| 0 <= i < ts.len() implies trav_stack(ts).contains(
            #[trigger] ts[i],
        ) by {
            lemma_concat_contains(trav(ts.last()), trav_stack(ts.drop_last()), ts[i]);
            if i < ts.len() - 1 {
                assert(ts.drop_last()[i] == ts[i]);
                assert(trav_stack(ts.drop_last()).contains(ts[i]));
            }
        }
    }
}

/// The direct arguments of any traversed term are traversed too.
pub proof fn lemma_trav_args_closed(t: TermView)
    ensures
        forall|x: TermView, k: int|
            trav(t).contains(x) && 0 <= k < x.args.len() ==> trav(t).contains(
                #[trigger] x.args[k],
            ),
    decreases t,
{
    lemma_trav_stack_args_closed(t.args);
    lemma_trav_stack_contains_all(t.args);
    assert forall|x: TermView, k: int|
        trav(t).contains(x) && 0 <= k < x.args.len() implies trav(t).contains(
        #[trigger] x.args[k],
    ) by {
        lemma_concat_contains(seq![t], trav_stack(t.args), x);
        lemma_concat_contains(seq![t], trav_stack(t.args), x.args[k]);
        if seq![t].contains(x) {
            assert(x == t);
            assert(trav_stack(t.args).contains(x.args[k]));
        } else {
            assert(trav_stack(t.args).contains(x.args[k]));
        }
    }
}

/// Stack version of `lemma_trav_args_closed`.
pub proof fn lemma_trav_stack_args_closed(ts: Seq<TermView>)
    ensures
        forall|x: TermView, k: int|
            trav_stack(ts).contains(x) && 0 <= k < x.args.len() ==> trav_stack(ts).contains(
                #[trigger] x.args[k],
            ),
    decreases ts,
{
    if ts.len() > 0 {
        lemma_trav_stack_args_closed(ts.drop_last());
        lemma_trav_args_closed(ts.last());
        assert forall|x: TermView, k: int|
            trav_stack(ts).contains(x) && 0 <= k < x.args.len() implies trav_stack(ts).contains(
            #[trigger] x.args[k],
        ) by {
            lemma_concat_contains(trav(ts.last()), trav_stack(ts.drop_last()), x);
            lemma_concat_contains(trav(ts.last()), trav_stack(ts.drop_last()), x.args[k]);
        }
    }
}

/// Total number of argument positions across a sequence of terms.
pub open spec fn arity_sum(ts: Seq<TermView>) -> nat
    decreases ts,
{
    if ts.len() == 0 {
        0
    } else {
        arity_sum(ts.drop_last()) + ts.last().args.len()
    }
}

/// `arity_sum` distributes over concatenation.
pub proof fn lemma_arity_sum_concat(a: Seq<TermView>, b: Seq<TermView>)
    ensures
        arity_sum(a + b) == arity_sum(a) + arity_sum(b),
    decreases b.len(),
{
    if b.len() == 0 {
        assert(a + b =~= a);
    } else {
        lemma_arity_sum_concat(a, b.drop_last());
        assert((a + b).drop_last() =~= a + b.drop_last());
    }
}

/// In a traversal, every term but the root is an argument position of an
/// earlier term, so the argument positions number one less than the nodes.
pub proof fn lemma_arity_sum_trav(t: TermView)
    ensures
        arity_sum(trav(t)) + 1 == trav(t).len(),
    decreases t,
{
    lemma_arity_sum_trav_stack(t.args);
    lemma_arity_sum_concat(seq![t], trav_stack(t.args));
    lemma_trav_stack_len(t.args);
    assert(arity_sum(seq![t]) == t.args.len()) by {
        assert(seq![t].drop_last() =~= Seq::<TermView>::empty());
        assert(seq![t].last() == t);
        assert(arity_sum(Seq::<TermView>::empty()) == 0);
        assert(arity_sum(seq![t]) == arity_sum(seq![t].drop_last()) + seq![t].last().args.len());
    }
}

/// Stack version of `lemma_arity_sum_trav`.
pub proof fn lemma_arity_sum_trav_stack(ts: Seq<TermView>)
    ensures
        arity_sum(trav_stack(ts)) + ts.len() == trav_stack(ts).len(),
    decreases ts,
{
    if ts.len() > 0 {
        lemma_arity_sum_trav(ts.last());
        lemma_arity_sum_trav_stack(ts.drop_last());
        lemma_arity_sum_concat(trav(ts.last()), trav_stack(ts.drop_last()));
    }
}

/// A stack of terms traverses at least one node per stack entry.
pub proof fn lemma_trav_stack_len(ts: Seq<TermView>)
    ensures
        trav_stack(ts).len() >= ts.len(),
    decreases ts,
{
    if ts.len() > 0 {
        lemma_trav_first(ts.last());
        lemma_trav_stack_len(ts.drop_last());
    }
}

/// The deduplicated-free traversal result of a term or relation: every
/// subterm reachable from the roots, in depth-first order, repeated
/// occurrences included.
pub struct SubTerms {
    pub terms: Vec<Term>,
}

impl Term {
    /// Every subterm reachable from this term, itself included, in
    /// depth-first order (arguments of a node are visited right to left).
    pub fn subterms(&self) -> (r: SubTerms)
        ensures
            views_of(r.terms@) == trav(self@),
    {
        let mut stack: Vec<Term> = Vec::new();
        stack.push(deep_copy(self));
        let mut out: Vec<Term> = Vec::new();
        proof {
            lemma_views_of(stack@);
            assert(views_of(stack@) =~= seq![self@]);
            assert(trav_stack(views_of(stack@)) =~= trav(self@)) by {
                assert(seq![self@].drop_last() =~= Seq::<TermView>::empty());
                assert(seq![self@].last() == self@);
                assert(trav_stack(Seq::<TermView>::empty()) =~= Seq::<TermView>::empty());
                assert(trav_stack(seq![self@]) == trav(self@) + trav_stack(
                    seq![self@].drop_last(),
                ));
                assert(trav(self@) + Seq::<TermView>::empty() =~= trav(self@));
            }
            assert(views_of(out@) =~= Seq::<TermView>::empty());
        }
        while stack.len() > 0
            invariant
                views_of(out@) + trav_stack(views_of(stack@)) =~= trav(self@),
            decreases trav_stack(views_of(stack@)).len(),
        {
            let ghost old_stack = stack@;
            let ghost old_out = out@;
            let cur = match stack.pop() {
                Some(c) => c,
                None => {
                    proof {
                        assert(false);
                    }
                    Term { name: String::new(), arguments: Vec::new() }
                },
            };
            proof {
                lemma_views_of(old_stack);
                lemma_views_of(stack@);
                assert(views_of(stack@) =~= views_of(old_stack).drop_last());
                assert(views_of(old_stack).last() == cur@);
            }
            let ghost rest_views = views_of(stack@);
            let na = cur.arguments.len();
            let mut k: usize = 0;
            while k < na
                invariant
                    na == cur.arguments.len(),
                    k <= na,
                    views_of(stack@) =~= rest_views + cur@.args.take(k as int),
                decreases na - k,
            {
                let ghost pre = stack@;
                let a = deep_copy(&cur.arguments[k]);
                stack.push(a);
                proof {
                    lemma_views_of(pre);
                    lemma_views_of(stack@);
                    lemma_views_of(cur.arguments@);
                    assert(views_of(stack@) =~= views_of(pre).push(a@));
                    assert(a@ == cur@.args[k as int]);
                    assert(cur@.args.take(k as int + 1) =~= cur@.args.take(k as int).push(
                        cur@.args[k as int],
                    ));
                    assert(views_of(stack@) =~= rest_views + cur@.args.take(k as int + 1));
                }
                k = k + 1;
            }
            out.push(cur);
            proof {
                lemma_views_of(old_out);
                lemma_views_of(out@);
                assert(views_of(out@) =~= views_of(old_out).push(cur@));
                lemma_views_of(cur.arguments@);
                assert(cur@.args.len() == cur.arguments@.len());
                assert(cur@.args.take(na as int) =~= cur@.args);
                lemma_trav_stack_concat(rest_views, cur@.args);
                lemma_trav_first(cur@);
                assert(trav_stack(views_of(old_stack)) =~= trav(cur@) + trav_stack(rest_views));
                assert(views_of(out@) + trav_stack(views_of(stack@)) =~= views_of(old_out)
                    + trav_stack(views_of(old_stack)));
            }
        }
        proof {
            lemma_views_of(stack@);
            assert(views_of(out@) + trav_stack(views_of(stack@)) =~= views_of(out@));
            assert(views_of(out@) =~= trav(self@));
        }
        SubTerms { terms: out }
    }
}

/// Canonical text of a term: the symbol name, followed, only for
/// arity above zero, by the parenthesized comma-separated text of the
/// arguments.
pub open spec fn render(t: TermView) -> Seq<char>
    decreases t,
{
    if t.args.len() == 0 {
        t.name
    } else {
        t.name + seq!['('] + render_args(t.args) + seq![')']
    }
}

/// Comma-separated text of an argument list.
pub open spec fn render_args(ts: Seq<TermView>) -> Seq<char>
    decreases ts,
{
    if ts.len() == 0 {
        Seq::empty()
    } else {
        render(ts[0]) + render_rest(ts.drop_first())
    }
}

/// Text of the arguments after the first, each preceded by a comma.
pub open spec fn render_rest(ts: Seq<TermView>) -> Seq<char>
    decreases ts,
{
    if ts.len() == 0 {
        Seq::empty()
    } else {
        seq![','] + render(ts[0]) + render_rest(ts.drop_first())
    }
}

/// Appending one more argument appends a comma and its text.
pub proof fn lemma_render_args_snoc(ts: Seq<TermView>, x: TermView)
    ensures
        ts.len() == 0 ==> render_args(ts.push(x)) =~= render(x),
        ts.len() > 0 ==> render_args(ts.push(x)) =~= render_args(ts) + seq![','] + render(x),
    decreases ts.len(),
{
    if ts.len() == 0 {
        assert(ts.push(x)[0] == x);
        assert(ts.push(x).drop_first() =~= Seq::<TermView>::empty());
        assert(render_rest(Seq::<TermView>::empty()) =~= Seq::<char>::empty());
        assert(render_args(ts.push(x)) == render(x) + render_rest(ts.push(x).drop_first()));
        assert(render_args(ts.push(x)) =~= render(x));
    } else {
        lemma_render_rest_snoc(ts.drop_first(), x);
        assert(ts.push(x)[0] == ts[0]);
        assert(ts.push(x).drop_first() =~= ts.drop_first().push(x));
        assert(render_args(ts.push(x)) == render(ts[0]) + render_rest(ts.drop_first().push(x)));
        assert(render_rest(ts.drop_first().push(x)) =~= render_rest(ts.drop_first()) + seq![',']
            + render(x));
        assert(render(ts[0]) + (render_rest(ts.drop_first()) + seq![','] + render(x)) =~= (render(
            ts[0],
        ) + render_rest(ts.drop_first())) + seq![','] + render(x));
    }
}

/// Rest-of-list version of `lemma_render_args_snoc`.
pub proof fn lemma_render_rest_snoc(ts: Seq<TermView>, x: TermView)
    ensures
        render_rest(ts.push(x)) =~= render_rest(ts) + seq![','] + render(x),
    decreases ts.len(),
{
    if ts.len() == 0 {
        assert(ts.push(x)[0] == x);
        assert(ts.push(x).drop_first() =~= Seq::<TermView>::empty());
        assert(render_rest(Seq::<TermView>::empty()) =~= Seq::<char>::empty());
        assert(render_rest(ts.push(x)) == seq![','] + render(x) + render_rest(
            ts.push(x).drop_first(),
        ));
        assert(render_rest(ts.push(x)) =~= seq![','] + render(x));
        assert(render_rest(ts) =~= Seq::<char>::empty());
    } else {
        lemma_render_rest_snoc(ts.drop_first(), x);
        assert(ts.push(x)[0] == ts[0]);
        assert(ts.push(x).drop_first() =~= ts.drop_first().push(x));
        assert(render_rest(ts.push(x)) == seq![','] + render(ts[0]) + render_rest(
            ts.drop_first().push(x),
        ));
        assert(render_rest(ts.drop_first().push(x)) =~= render_rest(ts.drop_first()) + seq![',']
            + render(x));
        assert(seq![','] + render(ts[0]) + (render_rest(ts.drop_first()) + seq![','] + render(x))
            =~= (seq![','] + render(ts[0]) + render_rest(ts.drop_first())) + seq![','] + render(x));
    }
}

impl Term {
    /// The canonical text rendering of the term.
    pub fn to_text(&self) -> (r: String)
        ensures
            r@ == render(self@),
        decreases *self,
    {
        proof {
            lemma_views_of(self.arguments@);
        }
        let mut s = self.name.clone();
        let na = self.arguments.len();
        if na > 0 {
            s.append("(");
            proof {
                reveal_strlit("(");
                assert("("@ =~= seq!['(']);
                assert(self@.args.take(0) =~= Seq::<TermView>::empty());
                assert(s@ =~= self@.name + seq!['('] + render_args(self@.args.take(0)));
            }
            let mut k: usize = 0;
            while k < na
                invariant
                    na == self.arguments@.len(),
                    na == self@.args.len(),
                    na > 0,
                    k <= na,
                    s@ == self@.name + seq!['('] + render_args(self@.args.take(k as int)),
                decreases na - k,
            {
                proof {
                    lemma_views_of(self.arguments@);
                }
                if k > 0 {
                    s.append(",");
                    proof {
                        reveal_strlit(",");
                        assert(","@ =~= seq![',']);
                    }
                }
                let t = self.arguments[k].to_text();
                s.append(t.as_str());
                proof {
                    assert(self@.args.take(k as int + 1) =~= self@.args.take(k as int).push(
                        self@.args[k as int],
                    ));
                    lemma_render_args_snoc(self@.args.take(k as int), self@.args[k as int]);
                    assert(t@ == render(self@.args[k as int]));
                    assert(s@ =~= self@.name + seq!['('] + render_args(
                        self@.args.take(k as int + 1),
                    ));
                }
                k = k + 1;
            }
            s.append(")");
            proof {
                reveal_strlit(")");
                assert(")"@ =~= seq![')']);
                assert(self@.args.take(na as int) =~= self@.args);
                assert(s@ =~= render(self@));
            }
        } else {
            proof {
                assert(s@ =~= render(self@));
            }
        }
        s
    }
}

/// The kind of a literal: an equality or a disequality.
#[derive(Clone, Copy, Debug, PartialEq, Eq, Structural)]
pub enum Kind {
    Equal,
    NotEqual,
}

/// Mathematical value of a relation: two term values and a kind.
#[verifier::ext_equal]
pub ghost struct RelationView {
    pub left: TermView,
    pub right: TermView,
    pub kind: Kind,
}

/// One ground literal: an equality or disequality between two terms.
#[derive(Debug)]
pub struct Relation {
    pub left: Term,
    pub right: Term,
    pub kind: Kind,
}

impl View for Relation {
    type V = RelationView;

    open spec fn view(&self) -> RelationView {
        RelationView { left: self.left@, right: self.right@, kind: self.kind }
    }
}

impl Relation {
    /// Every subterm reachable from either side of the relation, in
    /// depth-first order: first the left side, then the right.
    pub fn subterms(&self) -> (r: SubTerms)
        ensures
            views_of(r.terms@) == trav(self@.left) + trav(self@.right),
    {
        let mut l = self.left.subterms();
        let mut rt = self.right.subterms();
        let ghost lv = l.terms@;
        let ghost rv = rt.terms@;
        l.terms.append(&mut rt.terms);
        proof {
            lemma_views_of(lv);
            lemma_views_of(rv);
            lemma_views_of(l.terms@);
            assert(views_of(l.terms@) =~= views_of(lv) + views_of(rv));
        }
        l
    }
}

} // verus!
