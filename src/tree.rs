use vstd::prelude::*;

use crate::csg;
use crate::csg::{
    all_in_except, all_out_except,
    all_clauses_solid, composite_holds, Composite, contains_at, lemma_composite_concat,
    lemma_composite_push, lemma_conjoin_holds, vec_union, PrimId,
};

verus! {

/// A set operation between two solids.
#[derive(Clone, Copy, Debug, PartialEq, Eq, Structural)]
pub enum Interaction {
    /// Points in both
    Inter,
    /// Points in the first and not in the second
    Diff,
    /// Points in either
    Union,
}

/// An arbitrary expression of set operations over primitives.
pub enum InterTree {
    Item(PrimId),
    Node(Interaction, Box<InterTree>, Box<InterTree>),
}

/// Some primitive of `v` does not contain the point.
pub open spec fn some_out(m: Seq<bool>, v: Seq<PrimId>) -> bool {
    exists|j: int| 0 <= j < v.len() && !contains_at(m, #[trigger] v[j])
}

/// Some primitive of `v` contains the point.
pub open spec fn some_in(m: Seq<bool>, v: Seq<PrimId>) -> bool {
    exists|j: int| 0 <= j < v.len() && contains_at(m, #[trigger] v[j])
}

proof fn lemma_some_out_step(m: Seq<bool>, v: Seq<PrimId>, j: int)
    requires
        0 <= j < v.len(),
    ensures
        some_out(m, v.subrange(0, j + 1)) == (some_out(m, v.subrange(0, j)) || !contains_at(
            m,
            v[j],
        )),
{
    let (p, q) = (v.subrange(0, j), v.subrange(0, j + 1));
    if some_out(m, q) {
        let k = choose|k: int| 0 <= k < q.len() && !contains_at(m, #[trigger] q[k]);
        if k < j {
            assert(p[k] == q[k]);
        }
    }
    if some_out(m, p) {
        let k = choose|k: int| 0 <= k < p.len() && !contains_at(m, #[trigger] p[k]);
        assert(p[k] == q[k]);
    }
    if !contains_at(m, v[j]) {
        assert(q[j] == v[j]);
    }
}

proof fn lemma_some_in_step(m: Seq<bool>, v: Seq<PrimId>, j: int)
    requires
        0 <= j < v.len(),
    ensures
        some_in(m, v.subrange(0, j + 1)) == (some_in(m, v.subrange(0, j)) || contains_at(m, v[j])),
{
    let (p, q) = (v.subrange(0, j), v.subrange(0, j + 1));
    if some_in(m, q) {
        let k = choose|k: int| 0 <= k < q.len() && contains_at(m, #[trigger] q[k]);
        if k < j {
            assert(p[k] == q[k]);
        }
    }
    if some_in(m, p) {
        let k = choose|k: int| 0 <= k < p.len() && contains_at(m, #[trigger] p[k]);
        assert(p[k] == q[k]);
    }
    if contains_at(m, v[j]) {
        assert(q[j] == v[j]);
    }
}

proof fn lemma_composite_prefix(a: Seq<csg::Interaction>, i: int, m: Seq<bool>)
    requires
        0 <= i < a.len(),
    ensures
        composite_holds(a.subrange(0, i + 1), m) == (composite_holds(a.subrange(0, i), m)
            || a[i].holds(m)),
{
    assert(a.subrange(0, i + 1) =~= a.subrange(0, i).push(a[i]));
    lemma_composite_push(a.subrange(0, i), a[i], m);
}

/// A copy of a list of primitives.
fn copy_ids(v: &[PrimId]) -> (r: Vec<PrimId>)
    ensures
        r@ == v@,
{
    let empty: Vec<PrimId> = Vec::new();
    let r = vec_union(v, empty.as_slice());
    assert(v@ + empty@ =~= v@);
    r
}

/// `(A \ B) & (C \ D) = (A & C) \ (B | D)`, distributed over both unions.
fn product(a: &Vec<csg::Interaction>, b: &Vec<csg::Interaction>) -> (r: Vec<csg::Interaction>)
    requires
        all_clauses_solid(a@),
        all_clauses_solid(b@),
    ensures
        all_clauses_solid(r@),
        forall|m: Seq<bool>|
            #[trigger] composite_holds(r@, m) == (composite_holds(a@, m) && composite_holds(b@, m)),
{
    let mut res: Vec<csg::Interaction> = Vec::new();
    let mut i: usize = 0;
    while i < a.len()
        invariant
            i <= a@.len(),
            all_clauses_solid(a@),
            all_clauses_solid(b@),
            all_clauses_solid(res@),
            forall|m: Seq<bool>|
                #[trigger] composite_holds(res@, m) == (composite_holds(a@.subrange(0, i as int), m)
                    && composite_holds(b@, m)),
        decreases a@.len() - i,
    {
        let x = &a[i];
        let mut j: usize = 0;
        while j < b.len()
            invariant
                i < a@.len(),
                j <= b@.len(),
                *x == a@[i as int],
                all_clauses_solid(a@),
                all_clauses_solid(b@),
                all_clauses_solid(res@),
                forall|m: Seq<bool>|
                    #[trigger] composite_holds(res@, m) == ((composite_holds(
                        a@.subrange(0, i as int),
                        m,
                    ) && composite_holds(b@, m)) || (x.holds(m) && composite_holds(
                        b@.subrange(0, j as int),
                        m,
                    ))),
            decreases b@.len() - j,
        {
            let y = &b[j];
            let c = csg::Interaction(
                vec_union(x.0.as_slice(), y.0.as_slice()),
                vec_union(x.1.as_slice(), y.1.as_slice()),
            );
            let ghost old_res = res@;
            res.push(c);
            assert forall|m: Seq<bool>|
                #[trigger] composite_holds(res@, m) == ((composite_holds(
                    a@.subrange(0, i as int),
                    m,
                ) && composite_holds(b@, m)) || (x.holds(m) && composite_holds(
                    b@.subrange(0, j + 1),
                    m,
                ))) by {
                lemma_composite_push(old_res, c, m);
                lemma_conjoin_holds(*x, *y, c, m);
                lemma_composite_prefix(b@, j as int, m);
            }
            j = j + 1;
        }
        assert forall|m: Seq<bool>|
            #[trigger] composite_holds(res@, m) == (composite_holds(a@.subrange(0, i + 1), m)
                && composite_holds(b@, m)) by {
            assert(b@.subrange(0, j as int) =~= b@);
            lemma_composite_prefix(a@, i as int, m);
        }
        i = i + 1;
    }
    assert(a@.subrange(0, i as int) =~= a@);
    res
}

/// `x \ y` for each clause `x` of `acc`: outside some required-inside member of
/// `y`, or inside some required-outside member of it.
fn subtract(acc: &Vec<csg::Interaction>, y: &csg::Interaction) -> (r: Vec<csg::Interaction>)
    requires
        all_clauses_solid(acc@),
        y.0@.len() > 0,
    ensures
        all_clauses_solid(r@),
        forall|m: Seq<bool>|
            #[trigger] composite_holds(r@, m) == (composite_holds(acc@, m) && !y.holds(m)),
{
    let mut res: Vec<csg::Interaction> = Vec::new();
    let mut i: usize = 0;
    while i < acc.len()
        invariant
            i <= acc@.len(),
            y.0@.len() > 0,
            all_clauses_solid(acc@),
            all_clauses_solid(res@),
            forall|m: Seq<bool>|
                #[trigger] composite_holds(res@, m) == (composite_holds(
                    acc@.subrange(0, i as int),
                    m,
                ) && !y.holds(m)),
        decreases acc@.len() - i,
    {
        let x = &acc[i];
        let ghost before = res@;
        let mut j: usize = 0;
        while j < y.0.len()
            invariant
                i < acc@.len(),
                j <= y.0@.len(),
                *x == acc@[i as int],
                all_clauses_solid(acc@),
                all_clauses_solid(res@),
                forall|m: Seq<bool>|
                    #[trigger] composite_holds(res@, m) == (composite_holds(before, m) || (x.holds(m)
                        && some_out(m, y.0@.subrange(0, j as int)))),
            decreases y.0@.len() - j,
        {
            let z = y.0[j];
            let single: Vec<PrimId> = vec![z];
            assert(single@ =~= seq![z]);
            let c = csg::Interaction(copy_ids(x.0.as_slice()), vec_union(x.1.as_slice(), single.as_slice()));
            let ghost old_res = res@;
            res.push(c);
            assert forall|m: Seq<bool>|
                #[trigger] composite_holds(res@, m) == (composite_holds(before, m) || (x.holds(m)
                    && some_out(m, y.0@.subrange(0, j + 1)))) by {
                lemma_composite_push(old_res, c, m);
                lemma_some_out_step(m, y.0@, j as int);
                lemma_extend_out(*x, z, c, m);
            }
            j = j + 1;
        }
        let mut k: usize = 0;
        while k < y.1.len()
            invariant
                i < acc@.len(),
                j == y.0@.len(),
                k <= y.1@.len(),
                *x == acc@[i as int],
                all_clauses_solid(acc@),
                all_clauses_solid(res@),
                forall|m: Seq<bool>|
                    #[trigger] composite_holds(res@, m) == (composite_holds(before, m) || (x.holds(m)
                        && (some_out(m, y.0@.subrange(0, j as int)) || some_in(
                        m,
                        y.1@.subrange(0, k as int),
                    )))),
            decreases y.1@.len() - k,
        {
            let w = y.1[k];
            let single: Vec<PrimId> = vec![w];
            assert(single@ =~= seq![w]);
            let c = csg::Interaction(vec_union(x.0.as_slice(), single.as_slice()), copy_ids(x.1.as_slice()));
            let ghost old_res = res@;
            res.push(c);
            assert(c.0@.len() > 0);
            assert forall|m: Seq<bool>|
                #[trigger] composite_holds(res@, m) == (composite_holds(before, m) || (x.holds(m)
                    && (some_out(m, y.0@.subrange(0, j as int)) || some_in(
                    m,
                    y.1@.subrange(0, k + 1),
                )))) by {
                lemma_composite_push(old_res, c, m);
                lemma_some_in_step(m, y.1@, k as int);
                lemma_extend_in(*x, w, c, m);
            }
            k = k + 1;
        }
        assert forall|m: Seq<bool>|
            #[trigger] composite_holds(res@, m) == (composite_holds(
                acc@.subrange(0, i + 1),
                m,
            ) && !y.holds(m)) by {
            assert(y.0@.subrange(0, j as int) =~= y.0@);
            assert(y.1@.subrange(0, k as int) =~= y.1@);
            lemma_composite_prefix(acc@, i as int, m);
            lemma_not_holds(*y, m);
        }
        i = i + 1;
    }
    assert(acc@.subrange(0, i as int) =~= acc@);
    res
}

proof fn lemma_not_holds(y: csg::Interaction, m: Seq<bool>)
    requires
        y.0@.len() > 0,
    ensures
        !y.holds(m) == (some_out(m, y.0@) || some_in(m, y.1@)),
{
    if !all_in_except(m, y.0@, -1) {
        let j = choose|j: int| 0 <= j < y.0@.len() && j != -1 && !contains_at(m, #[trigger] y.0@[j]);
        assert(some_out(m, y.0@));
    }
    if !all_out_except(m, y.1@, -1) {
        let j = choose|j: int| 0 <= j < y.1@.len() && j != -1 && contains_at(m, #[trigger] y.1@[j]);
        assert(some_in(m, y.1@));
    }
}

proof fn lemma_extend_out(x: csg::Interaction, z: PrimId, c: csg::Interaction, m: Seq<bool>)
    requires
        c.0@ == x.0@,
        c.1@ == x.1@ + seq![z],
    ensures
        c.holds(m) == (x.holds(m) && !contains_at(m, z)),
{
    let (o, e) = (x.1@, x.1@ + seq![z]);
    if all_out_except(m, e, -1) {
        assert(e[o.len() as int] == z);
        assert forall|j: int| 0 <= j < o.len() && j != -1 implies !contains_at(m, #[trigger] o[j]) by {
            assert(e[j] == o[j]);
        }
    }
    if all_out_except(m, o, -1) && !contains_at(m, z) {
        assert forall|j: int| 0 <= j < e.len() && j != -1 implies !contains_at(m, #[trigger] e[j]) by {
            if j < o.len() {
                assert(e[j] == o[j]);
            }
        }
    }
}

proof fn lemma_extend_in(x: csg::Interaction, w: PrimId, c: csg::Interaction, m: Seq<bool>)
    requires
        c.0@ == x.0@ + seq![w],
        c.1@ == x.1@,
        x.0@.len() > 0,
    ensures
        c.holds(m) == (x.holds(m) && contains_at(m, w)),
{
    let (o, e) = (x.0@, x.0@ + seq![w]);
    if all_in_except(m, e, -1) {
        assert(e[o.len() as int] == w);
        assert forall|j: int| 0 <= j < o.len() && j != -1 implies contains_at(m, #[trigger] o[j]) by {
            assert(e[j] == o[j]);
        }
    }
    if all_in_except(m, o, -1) && contains_at(m, w) {
        assert forall|j: int| 0 <= j < e.len() && j != -1 implies contains_at(m, #[trigger] e[j]) by {
            if j < o.len() {
                assert(e[j] == o[j]);
            }
        }
    }
}

/// `X \ (Y1 | Y2 | ...)`: each clause of `b` is removed in turn, and the result
/// of one step is the basis of the next.
fn subtract_all(a: Vec<csg::Interaction>, b: &Vec<csg::Interaction>) -> (r: Vec<csg::Interaction>)
    requires
        all_clauses_solid(a@),
        all_clauses_solid(b@),
    ensures
        all_clauses_solid(r@),
        forall|m: Seq<bool>|
            #[trigger] composite_holds(r@, m) == (composite_holds(a@, m) && !composite_holds(b@, m)),
{
    let mut res = a;
    let mut j: usize = 0;
    while j < b.len()
        invariant
            j <= b@.len(),
            all_clauses_solid(b@),
            all_clauses_solid(res@),
            forall|m: Seq<bool>|
                #[trigger] composite_holds(res@, m) == (composite_holds(a@, m) && !composite_holds(
                    b@.subrange(0, j as int),
                    m,
                )),
        decreases b@.len() - j,
    {
        let ghost prev = res@;
        res = subtract(&res, &b[j]);
        assert forall|m: Seq<bool>|
            #[trigger] composite_holds(res@, m) == (composite_holds(a@, m) && !composite_holds(
                b@.subrange(0, j + 1),
                m,
            )) by {
            assert(composite_holds(res@, m) == (composite_holds(prev, m) && !b@[j as int].holds(m)));
            lemma_composite_prefix(b@, j as int, m);
        }
        j = j + 1;
    }
    assert(b@.subrange(0, j as int) =~= b@);
    res
}

impl InterTree {
    /// The set of points that the expression describes, given which primitives
    /// contain the point.
    pub open spec fn holds(&self, m: Seq<bool>) -> bool
        decreases self,
    {
        match self {
            InterTree::Item(p) => contains_at(m, *p),
            InterTree::Node(op, a, b) => match op {
                Interaction::Inter => a.holds(m) && b.holds(m),
                Interaction::Diff => a.holds(m) && !b.holds(m),
                Interaction::Union => a.holds(m) || b.holds(m),
            },
        }
    }

    /// The points of both expressions.
    pub fn inter(self, other: Self) -> (r: Self)
        ensures
            r matches InterTree::Node(Interaction::Inter, a, b) && *a == self && *b == other,
    {
        InterTree::Node(Interaction::Inter, Box::new(self), Box::new(other))
    }

    /// The points of `self` that are not in `other`.
    pub fn diff(self, other: Self) -> (r: Self)
        ensures
            r matches InterTree::Node(Interaction::Diff, a, b) && *a == self && *b == other,
    {
        InterTree::Node(Interaction::Diff, Box::new(self), Box::new(other))
    }

    /// The points of either expression.
    pub fn union(self, other: Self) -> (r: Self)
        ensures
            r matches InterTree::Node(Interaction::Union, a, b) && *a == self && *b == other,
    {
        InterTree::Node(Interaction::Union, Box::new(self), Box::new(other))
    }

    /// The expression as a union of clauses, each the intersection of some
    /// primitives minus the union of others. It describes the same set of
    /// points, and each clause has at least one primitive to be inside of.
    pub fn canonical(&self) -> (r: Composite)
        ensures
            all_clauses_solid(r@),
            forall|m: Seq<bool>| #[trigger] composite_holds(r@, m) == self.holds(m),
        decreases self,
    {
        match self {
            InterTree::Item(p) => {
                let c = csg::Interaction(vec![*p], Vec::new());
                let r = vec![c];
                assert forall|m: Seq<bool>| #[trigger] composite_holds(r@, m) == self.holds(m) by {
                    assert(r@[0] == c);
                    assert(c.0@ =~= seq![*p]);
                    assert(c.1@.len() == 0);
                    if contains_at(m, *p) {
                        assert(c.holds(m));
                    }
                    if composite_holds(r@, m) {
                        assert(c.holds(m));
                        assert(c.0@[0] == *p);
                    }
                }
                r
            },
            InterTree::Node(op, a, b) => {
                let a_can = a.canonical();
                let mut b_can = b.canonical();
                match op {
                    Interaction::Union => {
                        let mut res = a_can;
                        let ghost (x, y) = (res@, b_can@);
                        res.append(&mut b_can);
                        assert forall|m: Seq<bool>| #[trigger] composite_holds(res@, m) == self.holds(m) by {
                            lemma_composite_concat(x, y, m);
                        }
                        res
                    },
                    Interaction::Inter => {
                        let res = product(&a_can, &b_can);
                        assert forall|m: Seq<bool>| #[trigger] composite_holds(res@, m) == self.holds(m) by {
                            assert(composite_holds(a_can@, m) == a.holds(m));
                            assert(composite_holds(b_can@, m) == b.holds(m));
                        }
                        res
                    },
                    Interaction::Diff => {
                        let res = subtract_all(a_can, &b_can);
                        assert forall|m: Seq<bool>| #[trigger] composite_holds(res@, m) == self.holds(m) by {
                            assert(composite_holds(b_can@, m) == b.holds(m));
                        }
                        res
                    },
                }
            },
        }
    }
}

} // verus!
