use vstd::prelude::*;

verus! {

/// Index of a primitive in the scene's table of primitives.
pub type PrimId = usize;

/// Whether primitive `id` contains the probed point, according to the table `m`
/// of containment results. An id past the end of the table does not contain it.
pub open spec fn contains_at(m: Seq<bool>, id: PrimId) -> bool {
    (id as int) < m.len() && m[id as int]
}

/// Every primitive of `v` but the one at position `skip` contains the point.
pub open spec fn all_in_except(m: Seq<bool>, v: Seq<PrimId>, skip: int) -> bool {
    forall|j: int| 0 <= j < v.len() && j != skip ==> contains_at(m, #[trigger] v[j])
}

/// No primitive of `v` but the one at position `skip` contains the point.
pub open spec fn all_out_except(m: Seq<bool>, v: Seq<PrimId>, skip: int) -> bool {
    forall|j: int| 0 <= j < v.len() && j != skip ==> !contains_at(m, #[trigger] v[j])
}

/// The region of a clause: inside each primitive of `inside`, outside each of
/// `outside`. A clause with nothing to be inside of has no interior.
pub open spec fn clause_holds(inside: Seq<PrimId>, outside: Seq<PrimId>, m: Seq<bool>) -> bool {
    inside.len() > 0 && all_in_except(m, inside, -1) && all_out_except(m, outside, -1)
}

/// One CSG term: the intersection of the primitives of the first list minus the
/// union of those of the second.
#[derive(Clone, Debug)]
pub struct Interaction(pub Vec<PrimId>, pub Vec<PrimId>);

impl Interaction {
    /// The point lies in the region of this clause.
    pub open spec fn holds(&self, m: Seq<bool>) -> bool {
        clause_holds(self.0@, self.1@, m)
    }

    /// Containment of one primitive, read from the table.
    pub fn inside(m: &[bool], id: PrimId) -> (r: bool)
        ensures
            r == contains_at(m@, id),
    {
        id < m.len() && m[id]
    }

    /// Complement of `inside`.
    pub fn outside(m: &[bool], id: PrimId) -> (r: bool)
        ensures
            r == !contains_at(m@, id),
    {
        !Interaction::inside(m, id)
    }

    /// Every item of `v` but the one at position `i` contains the point.
    ///
    /// The containment test of the primitive whose surface was just crossed is
    /// unreliable there, hence the exception; `i == v.len()` tests them all.
    pub fn all_inside_except(m: &[bool], v: &[PrimId], i: usize) -> (r: bool)
        ensures
            r == all_in_except(m@, v@, i as int),
    {
        let mut j: usize = 0;
        while j < v.len()
            invariant
                j <= v@.len(),
                all_in_except(m@, v@.subrange(0, j as int), i as int),
            decreases v@.len() - j,
        {
            if j != i && Interaction::outside(m, v[j]) {
                assert(!all_in_except(m@, v@, i as int));
                return false;
            }
            assert(all_in_except(m@, v@.subrange(0, j + 1), i as int)) by {
                assert forall|k: int| 0 <= k < j + 1 && k != i implies contains_at(
                    m@,
                    #[trigger] v@.subrange(0, j + 1)[k],
                ) by {
                    if k < j {
                        assert(v@.subrange(0, j as int)[k] == v@[k]);
                    }
                }
            }
            j = j + 1;
        }
        assert(v@.subrange(0, j as int) =~= v@);
        true
    }

    /// No item of `v` but the one at position `i` contains the point;
    /// `i == v.len()` tests them all.
    pub fn all_outside_except(m: &[bool], v: &[PrimId], i: usize) -> (r: bool)
        ensures
            r == all_out_except(m@, v@, i as int),
    {
        let mut j: usize = 0;
        while j < v.len()
            invariant
                j <= v@.len(),
                all_out_except(m@, v@.subrange(0, j as int), i as int),
            decreases v@.len() - j,
        {
            if j != i && Interaction::inside(m, v[j]) {
                assert(!all_out_except(m@, v@, i as int));
                return false;
            }
            assert(all_out_except(m@, v@.subrange(0, j + 1), i as int)) by {
                assert forall|k: int| 0 <= k < j + 1 && k != i implies !contains_at(
                    m@,
                    #[trigger] v@.subrange(0, j + 1)[k],
                ) by {
                    if k < j {
                        assert(v@.subrange(0, j as int)[k] == v@[k]);
                    }
                }
            }
            j = j + 1;
        }
        assert(v@.subrange(0, j as int) =~= v@);
        true
    }
}

/// A composite: the union of its clauses.
pub open spec fn composite_holds(cs: Seq<Interaction>, m: Seq<bool>) -> bool {
    exists|k: int| 0 <= k < cs.len() && #[trigger] cs[k].holds(m)
}

/// A list of clauses, read as their union.
pub type Composite = Vec<Interaction>;

/// The order of the clauses of a composite, and repeated clauses, do not
/// change which points are solid: two composites made of the same clauses
/// hold at the same points.
pub proof fn lemma_composite_same_clauses(a: Seq<Interaction>, b: Seq<Interaction>, m: Seq<bool>)
    requires
        forall|k: int| 0 <= k < a.len() ==> exists|j: int| 0 <= j < b.len() && b[j] == #[trigger] a[k],
        forall|j: int| 0 <= j < b.len() ==> exists|k: int| 0 <= k < a.len() && a[k] == #[trigger] b[j],
    ensures
        composite_holds(a, m) == composite_holds(b, m),
{
    if composite_holds(a, m) {
        let k = choose|k: int| 0 <= k < a.len() && #[trigger] a[k].holds(m);
        let j = choose|j: int| 0 <= j < b.len() && b[j] == a[k];
        assert(b[j].holds(m));
    }
    if composite_holds(b, m) {
        let j = choose|j: int| 0 <= j < b.len() && #[trigger] b[j].holds(m);
        let k = choose|k: int| 0 <= k < a.len() && a[k] == b[j];
        assert(a[k].holds(m));
    }
}

/// Every clause has something to be inside of, as the canonical form guarantees.
pub open spec fn all_clauses_solid(cs: Seq<Interaction>) -> bool {
    forall|k: int| 0 <= k < cs.len() ==> (#[trigger] cs[k]).0@.len() > 0
}

/// The union of two composites holds where either of them does.
pub proof fn lemma_composite_concat(a: Seq<Interaction>, b: Seq<Interaction>, m: Seq<bool>)
    ensures
        composite_holds(a + b, m) == (composite_holds(a, m) || composite_holds(b, m)),
{
    if composite_holds(a + b, m) {
        let k = choose|k: int| 0 <= k < (a + b).len() && #[trigger] (a + b)[k].holds(m);
        if k < a.len() {
            assert(a[k] == (a + b)[k]);
        } else {
            assert(b[k - a.len()] == (a + b)[k]);
        }
    }
    if composite_holds(a, m) {
        let k = choose|k: int| 0 <= k < a.len() && #[trigger] a[k].holds(m);
        assert((a + b)[k] == a[k]);
    }
    if composite_holds(b, m) {
        let k = choose|k: int| 0 <= k < b.len() && #[trigger] b[k].holds(m);
        assert((a + b)[k + a.len()] == b[k]);
    }
}

/// Adding one clause to a composite adds its region.
pub proof fn lemma_composite_push(a: Seq<Interaction>, c: Interaction, m: Seq<bool>)
    ensures
        composite_holds(a.push(c), m) == (composite_holds(a, m) || c.holds(m)),
{
    lemma_composite_concat(a, seq![c], m);
    assert(a.push(c) =~= a + seq![c]);
    if c.holds(m) {
        assert(seq![c][0] == c);
    }
}

/// Two clauses merged list by list hold exactly where both hold.
pub proof fn lemma_conjoin_holds(x: Interaction, y: Interaction, z: Interaction, m: Seq<bool>)
    requires
        x.0@.len() > 0,
        y.0@.len() > 0,
        z.0@ == x.0@ + y.0@,
        z.1@ == x.1@ + y.1@,
    ensures
        z.holds(m) == (x.holds(m) && y.holds(m)),
{
    let (xi, xo, yi, yo) = (x.0@, x.1@, y.0@, y.1@);
    if all_in_except(m, xi, -1) && all_in_except(m, yi, -1) {
        assert forall|j: int| 0 <= j < (xi + yi).len() && j != -1 implies contains_at(
            m,
            #[trigger] (xi + yi)[j],
        ) by {
            if j >= xi.len() {
                assert((xi + yi)[j] == yi[j - xi.len()]);
            }
        }
    }
    if all_in_except(m, xi + yi, -1) {
        assert forall|j: int| 0 <= j < xi.len() && j != -1 implies contains_at(m, #[trigger] xi[j]) by {
            assert((xi + yi)[j] == xi[j]);
        }
        assert forall|j: int| 0 <= j < yi.len() && j != -1 implies contains_at(m, #[trigger] yi[j]) by {
            assert((xi + yi)[j + xi.len()] == yi[j]);
        }
    }
    if all_out_except(m, xo, -1) && all_out_except(m, yo, -1) {
        assert forall|j: int| 0 <= j < (xo + yo).len() && j != -1 implies !contains_at(
            m,
            #[trigger] (xo + yo)[j],
        ) by {
            if j >= xo.len() {
                assert((xo + yo)[j] == yo[j - xo.len()]);
            }
        }
    }
    if all_out_except(m, xo + yo, -1) {
        assert forall|j: int| 0 <= j < xo.len() && j != -1 implies !contains_at(m, #[trigger] xo[j]) by {
            assert((xo + yo)[j] == xo[j]);
        }
        assert forall|j: int| 0 <= j < yo.len() && j != -1 implies !contains_at(m, #[trigger] yo[j]) by {
            assert((xo + yo)[j + xo.len()] == yo[j]);
        }
    }
}

/// Concatenation of two lists of primitives.
pub fn vec_union(a: &[PrimId], b: &[PrimId]) -> (r: Vec<PrimId>)
    ensures
        r@ == a@ + b@,
{
    let mut res: Vec<PrimId> = Vec::new();
    let mut i: usize = 0;
    while i < a.len()
        invariant
            i <= a@.len(),
            res@ == a@.subrange(0, i as int),
        decreases a@.len() - i,
    {
        res.push(a[i]);
        i = i + 1;
        assert(res@ =~= a@.subrange(0, i as int));
    }
    let mut j: usize = 0;
    while j < b.len()
        invariant
            j <= b@.len(),
            res@ == a@ + b@.subrange(0, j as int),
        decreases b@.len() - j,
    {
        res.push(b[j]);
        j = j + 1;
        assert(res@ =~= a@ + b@.subrange(0, j as int));
    }
    assert(b@.subrange(0, j as int) =~= b@);
    res
}

/// The first primitive of `v` flagged in `rf`.
pub open spec fn first_flagged(v: Seq<PrimId>, rf: Seq<bool>) -> Option<PrimId>
    decreases v.len(),
{
    if v.len() == 0 {
        None
    } else if contains_at(rf, v[0]) {
        Some(v[0])
    } else {
        first_flagged(v.drop_first(), rf)
    }
}

/// The primitive that gives its medium to a point: among the clauses that hold
/// there, in order, the first required-inside member flagged as refractive.
pub open spec fn medium_of(cs: Seq<Interaction>, m: Seq<bool>, rf: Seq<bool>) -> Option<PrimId>
    decreases cs.len(),
{
    if cs.len() == 0 {
        None
    } else if cs[0].holds(m) && first_flagged(cs[0].0@, rf) is Some {
        first_flagged(cs[0].0@, rf)
    } else {
        medium_of(cs.drop_first(), m, rf)
    }
}

/// The first member of `v` flagged in `rf`.
fn first_refractive(v: &[PrimId], rf: &[bool]) -> (r: Option<PrimId>)
    ensures
        r == first_flagged(v@, rf@),
{
    let mut i: usize = 0;
    assert(v@.subrange(0, v@.len() as int) =~= v@);
    while i < v.len()
        invariant
            i <= v@.len(),
            first_flagged(v@, rf@) == first_flagged(v@.subrange(i as int, v@.len() as int), rf@),
        decreases v@.len() - i,
    {
        assert(v@.subrange(i as int, v@.len() as int).drop_first() =~= v@.subrange(
            i + 1,
            v@.len() as int,
        ));
        if Interaction::inside(rf, v[i]) {
            return Some(v[i]);
        }
        i = i + 1;
    }
    None
}

impl Interaction {
    /// A clause made of one primitive.
    pub fn wrap(p: PrimId) -> (r: Interaction)
        ensures
            r.0@ == seq![p],
            r.1@.len() == 0,
    {
        let r = Interaction(vec![p], Vec::new());
        assert(r.0@ =~= seq![p]);
        r
    }

    /// The clause also requires being inside `other`.
    pub fn intersect(self, other: PrimId) -> (r: Interaction)
        ensures
            r.0@ == self.0@.push(other),
            r.1@ == self.1@,
    {
        let mut r = self;
        r.0.push(other);
        r
    }

    /// The clause also requires being outside `other`.
    pub fn remove(self, other: PrimId) -> (r: Interaction)
        ensures
            r.0@ == self.0@,
            r.1@ == self.1@.push(other),
    {
        let mut r = self;
        r.1.push(other);
        r
    }

    /// In place, the clause also requires being inside `other`.
    pub fn intersect_mut(&mut self, other: PrimId)
        ensures
            final(self).0@ == old(self).0@.push(other),
            final(self).1@ == old(self).1@,
    {
        self.0.push(other);
    }

    /// In place, the clause also requires being outside `other`.
    pub fn remove_mut(&mut self, other: PrimId)
        ensures
            final(self).0@ == old(self).0@,
            final(self).1@ == old(self).1@.push(other),
    {
        self.1.push(other);
    }

    /// Whether the point lies in the region of the clause.
    pub fn contains(&self, m: &[bool]) -> (r: bool)
        ensures
            r == self.holds(m@),
    {
        self.0.len() > 0 && Interaction::all_inside_except(m, self.0.as_slice(), self.0.len())
            && Interaction::all_outside_except(m, self.1.as_slice(), self.1.len())
    }

    /// Whether a crossing of the surface of member `i` (of the required-inside
    /// list if `on_inside`, else of the required-outside list) lies on the
    /// boundary of the clause: the point satisfies every other member. The
    /// crossed member itself is left out, its own test being unreliable on its
    /// surface. A clause with nothing to be inside of has no boundary.
    pub fn on_boundary(&self, m: &[bool], on_inside: bool, i: usize) -> (r: bool)
        ensures
            r == (self.0@.len() > 0 && if on_inside {
                all_in_except(m@, self.0@, i as int) && all_out_except(m@, self.1@, -1)
            } else {
                all_in_except(m@, self.0@, -1) && all_out_except(m@, self.1@, i as int)
            }),
    {
        if self.0.len() == 0 {
            false
        } else if on_inside {
            let r = Interaction::all_inside_except(m, self.0.as_slice(), i)
                && Interaction::all_outside_except(m, self.1.as_slice(), self.1.len());
            assert(all_out_except(m@, self.1@, self.1@.len() as int) == all_out_except(m@, self.1@, -1));
            r
        } else {
            let r = Interaction::all_inside_except(m, self.0.as_slice(), self.0.len())
                && Interaction::all_outside_except(m, self.1.as_slice(), i);
            assert(all_in_except(m@, self.0@, self.0@.len() as int) == all_in_except(m@, self.0@, -1));
            r
        }
    }
}

/// The body of a scene: a union of clauses over the scene's primitives.
#[derive(Clone, Debug)]
pub struct World {
    obj: Vec<Interaction>,
}

impl View for World {
    type V = Seq<Interaction>;

    closed spec fn view(&self) -> Seq<Interaction> {
        self.obj@
    }
}

impl World {
    /// An empty scene.
    pub fn new() -> (r: World)
        ensures
            r@.len() == 0,
    {
        World { obj: Vec::new() }
    }

    /// Adds a clause.
    pub fn push(&mut self, x: Interaction)
        ensures
            final(self)@ == old(self)@.push(x),
    {
        self.obj.push(x);
    }

    /// Adds the clauses of a composite, in order.
    pub fn push_vec(&mut self, v: Composite)
        ensures
            final(self)@ == old(self)@ + v@,
    {
        let mut v = v;
        self.obj.append(&mut v);
    }

    /// Removes every clause.
    pub fn clear(&mut self)
        ensures
            final(self)@.len() == 0,
    {
        self.obj.clear();
    }

    /// Number of clauses.
    pub fn len(&self) -> (r: usize)
        ensures
            r == self@.len(),
    {
        self.obj.len()
    }

    /// The clause at position `k`.
    pub fn clause(&self, k: usize) -> (r: &Interaction)
        requires
            k < self@.len(),
        ensures
            *r == self@[k as int],
    {
        &self.obj[k]
    }

    /// Whether the point is solid: some clause holds there.
    pub fn contains(&self, m: &[bool]) -> (r: bool)
        ensures
            r == composite_holds(self@, m@),
    {
        let mut k: usize = 0;
        while k < self.obj.len()
            invariant
                k <= self@.len(),
                !composite_holds(self@.subrange(0, k as int), m@),
            decreases self@.len() - k,
        {
            if self.obj[k].contains(m) {
                assert(self@[k as int].holds(m@));
                return true;
            }
            proof {
                assert(self@.subrange(0, k + 1) =~= self@.subrange(0, k as int).push(self@[k as int]));
                lemma_composite_push(self@.subrange(0, k as int), self@[k as int], m@);
            }
            k = k + 1;
        }
        assert(self@.subrange(0, k as int) =~= self@);
        false
    }

    /// The primitive whose material fills the point, if any: within the clauses
    /// that hold there, in order, the first required-inside member flagged in
    /// `rf` as refractive. `None` stands for the vacuum.
    pub fn medium_source(&self, m: &[bool], rf: &[bool]) -> (r: Option<PrimId>)
        ensures
            r == medium_of(self@, m@, rf@),
    {
        let mut k: usize = 0;
        assert(self@.subrange(0, self@.len() as int) =~= self@);
        while k < self.obj.len()
            invariant
                k <= self@.len(),
                medium_of(self@, m@, rf@) == medium_of(
                    self@.subrange(k as int, self@.len() as int),
                    m@,
                    rf@,
                ),
            decreases self@.len() - k,
        {
            assert(self@.subrange(k as int, self@.len() as int).drop_first() =~= self@.subrange(
                k + 1,
                self@.len() as int,
            ));
            let c = &self.obj[k];
            if c.contains(m) {
                let f = first_refractive(c.0.as_slice(), rf);
                if f.is_some() {
                    return f;
                }
            }
            k = k + 1;
        }
        None
    }
}

} // verus!
