use vstd::prelude::*;

verus! {

/// The order that a constraint asks of its first cell with respect to its second.
#[derive(Clone, Copy, Debug, PartialEq, Eq, Structural)]
pub enum Relation {
    GreaterThan,
    LessThan,
}

/// Whether `a` stands in relation `rel` to `b`.
pub open spec fn holds(rel: Relation, a: int, b: int) -> bool {
    match rel {
        Relation::GreaterThan => a > b,
        Relation::LessThan => a < b,
    }
}

pub open spec fn flipped(rel: Relation) -> Relation {
    match rel {
        Relation::GreaterThan => Relation::LessThan,
        Relation::LessThan => Relation::GreaterThan,
    }
}

impl Relation {
    /// The same constraint read from the other cell.
    pub fn flip(self) -> (r: Relation)
        ensures
            r == flipped(self),
    {
        match self {
            Relation::GreaterThan => Relation::LessThan,
            Relation::LessThan => Relation::GreaterThan,
        }
    }

    /// Whether the values `a` and `b` satisfy this relation.
    pub fn allows(self, a: u32, b: u32) -> (r: bool)
        ensures
            r == holds(self, a as int, b as int),
    {
        match self {
            Relation::GreaterThan => a > b,
            Relation::LessThan => a < b,
        }
    }
}

/// The first relation recorded against `partner` in a cell's list of constraints.
pub open spec fn lookup(list: Seq<(usize, Relation)>, partner: usize) -> Option<Relation>
    decreases list.len(),
{
    if list.len() == 0 {
        None
    } else {
        let prior = lookup(list.drop_last(), partner);
        if prior is Some {
            prior
        } else if list.last().0 == partner {
            Some(list.last().1)
        } else {
            None
        }
    }
}

/// Extends a cell's constraint list by one partner; the extended list answers every
/// earlier query as before, and `cell` with `relation` where nothing earlier did.
pub fn restriction_func(list: Vec<(usize, Relation)>, cell: usize, relation: Relation) -> (r: Vec<(usize, Relation)>)
    ensures
        r@ == list@.push((cell, relation)),
        forall|y: usize|
            #[trigger] lookup(r@, y) == if lookup(list@, y) is Some {
                lookup(list@, y)
            } else if y == cell {
                Some(relation)
            } else {
                None
            },
{
    let mut r = list;
    r.push((cell, relation));
    proof {
        assert forall|y: usize| #[trigger] lookup(r@, y) == (if lookup(list@, y) is Some {
            lookup(list@, y)
        } else if y == cell {
            Some(relation)
        } else {
            None
        }) by {
            assert(r@.drop_last() =~= list@);
        }
    }
    r
}

/// A registered order constraint: `cell_a` must stand in `relation` to `cell_b`.
#[derive(Clone, Copy, Debug, PartialEq, Eq, Structural)]
pub struct Constraint {
    pub cell_a: usize,
    pub cell_b: usize,
    pub relation: Relation,
}

/// What `c` asks of `x` with respect to `y`, if `c` joins exactly these two cells.
pub open spec fn oriented(c: Constraint, x: usize, y: usize) -> Option<Relation> {
    if c.cell_a == x && c.cell_b == y {
        Some(c.relation)
    } else if c.cell_b == x && c.cell_a == y {
        Some(flipped(c.relation))
    } else {
        None
    }
}

/// The relation required of `x` with respect to `y`: the one given by the earliest
/// registered constraint between the two cells.
pub open spec fn relation_in(cons: Seq<Constraint>, x: usize, y: usize) -> Option<Relation>
    decreases cons.len(),
{
    if cons.len() == 0 {
        None
    } else {
        let prior = relation_in(cons.drop_last(), x, y);
        if prior is Some {
            prior
        } else {
            oriented(cons.last(), x, y)
        }
    }
}

/// The partners that `c` gives to cell `x`, each with the relation asked of `x`.
pub open spec fn entries_from(c: Constraint, x: usize) -> Seq<(usize, Relation)> {
    let first = if c.cell_a == x {
        seq![(c.cell_b, c.relation)]
    } else {
        Seq::empty()
    };
    if c.cell_b == x {
        first.push((c.cell_a, flipped(c.relation)))
    } else {
        first
    }
}

/// Cell `x`'s list of partners, in the order the constraints were registered.
pub open spec fn entries_of(cons: Seq<Constraint>, x: usize) -> Seq<(usize, Relation)>
    decreases cons.len(),
{
    if cons.len() == 0 {
        Seq::empty()
    } else {
        entries_of(cons.drop_last(), x) + entries_from(cons.last(), x)
    }
}

proof fn lemma_lookup_append(a: Seq<(usize, Relation)>, b: Seq<(usize, Relation)>, y: usize)
    ensures
        lookup(a + b, y) == if lookup(a, y) is Some {
            lookup(a, y)
        } else {
            lookup(b, y)
        },
    decreases b.len(),
{
    if b.len() == 0 {
        assert(a + b =~= a);
    } else {
        lemma_lookup_append(a, b.drop_last(), y);
        assert((a + b).drop_last() =~= a + b.drop_last());
    }
}

proof fn lemma_lookup_none(s: Seq<(usize, Relation)>, y: usize)
    requires
        forall|k: int| 0 <= k < s.len() ==> (#[trigger] s[k]).0 != y,
    ensures
        lookup(s, y) is None,
    decreases s.len(),
{
    if s.len() > 0 {
        assert forall|k: int| 0 <= k < s.drop_last().len() implies (#[trigger] s.drop_last()[k]).0 != y by {
            assert(s.drop_last()[k] == s[k]);
        }
        lemma_lookup_none(s.drop_last(), y);
        assert(s.last() == s[s.len() - 1]);
    }
}

proof fn lemma_lookup_head(s: Seq<(usize, Relation)>, y: usize)
    requires
        s.len() > 0,
        s[0].0 == y,
    ensures
        lookup(s, y) == Some(s[0].1),
    decreases s.len(),
{
    if s.len() > 1 {
        assert(s.drop_last()[0] == s[0]);
        lemma_lookup_head(s.drop_last(), y);
        assert(lookup(s.drop_last(), y) is Some);
    } else {
        assert(s.drop_last() =~= Seq::<(usize, Relation)>::empty());
        assert(lookup(s.drop_last(), y) is None);
        assert(s.last() == s[0]);
    }
}

/// A scan from the front finds what `lookup` reports: the first entry for `y`.
proof fn lemma_lookup_first(s: Seq<(usize, Relation)>, y: usize, i: int)
    requires
        0 <= i <= s.len(),
        forall|k: int| 0 <= k < i ==> (#[trigger] s[k]).0 != y,
    ensures
        i < s.len() && s[i].0 == y ==> lookup(s, y) == Some(s[i].1),
        i == s.len() ==> lookup(s, y) is None,
{
    let front = s.subrange(0, i);
    let back = s.subrange(i, s.len() as int);
    assert(s =~= front + back);
    assert forall|k: int| 0 <= k < front.len() implies (#[trigger] front[k]).0 != y by {
        assert(front[k] == s[k]);
    }
    lemma_lookup_none(front, y);
    lemma_lookup_append(front, back, y);
    if i < s.len() && s[i].0 == y {
        assert(back[0] == s[i]);
        lemma_lookup_head(back, y);
    }
    if i == s.len() {
        assert(back =~= Seq::<(usize, Relation)>::empty());
    }
}

proof fn lemma_lookup_entries(cons: Seq<Constraint>, x: usize, y: usize)
    ensures
        lookup(entries_of(cons, x), y) == relation_in(cons, x, y),
    decreases cons.len(),
{
    if cons.len() > 0 {
        let c = cons.last();
        lemma_lookup_entries(cons.drop_last(), x, y);
        lemma_lookup_append(entries_of(cons.drop_last(), x), entries_from(c, x), y);
        let e = entries_from(c, x);
        let empty = Seq::<(usize, Relation)>::empty();
        assert(lookup(empty, y) is None);
        if c.cell_a == x && c.cell_b == x {
            assert(e.drop_last() =~= seq![(c.cell_b, c.relation)]);
            assert(e.drop_last().drop_last() =~= empty);
            assert(lookup(e.drop_last(), y) == if c.cell_b == y { Some(c.relation) } else { None });
        } else if c.cell_a == x {
            assert(e.drop_last() =~= empty);
        } else if c.cell_b == x {
            assert(e.drop_last() =~= empty);
        } else {
            assert(e =~= empty);
        }
        assert(lookup(e, y) == oriented(c, x, y));
    }
}

/// Read from the other cell, the registry reports the flipped relation.
pub proof fn lemma_relation_in_flip(cons: Seq<Constraint>, x: usize, y: usize)
    requires
        x != y,
    ensures
        relation_in(cons, y, x) == match relation_in(cons, x, y) {
            Some(rel) => Some(flipped(rel)),
            None => None,
        },
    decreases cons.len(),
{
    if cons.len() > 0 {
        lemma_relation_in_flip(cons.drop_last(), x, y);
        let c = cons.last();
        match c.relation {
            Relation::GreaterThan => {},
            Relation::LessThan => {},
        }
    }
}

/// Each partner in a cell's list comes from a registered constraint on the two cells.
pub proof fn lemma_entry_source(cons: Seq<Constraint>, x: usize, m: int)
    requires
        0 <= m < entries_of(cons, x).len(),
    ensures
        exists|k: int| 0 <= k < cons.len() && {
            let (y, rel) = entries_of(cons, x)[m];
            ||| ((#[trigger] cons[k]).cell_a == x && cons[k].cell_b == y && cons[k].relation == rel)
            ||| (cons[k].cell_b == x && cons[k].cell_a == y && flipped(cons[k].relation) == rel)
        },
    decreases cons.len(),
{
    let pre = entries_of(cons.drop_last(), x);
    let c = cons.last();
    let e = entries_from(c, x);
    assert(entries_of(cons, x) == pre + e);
    if m < pre.len() {
        lemma_entry_source(cons.drop_last(), x, m);
        let k = choose|k: int| 0 <= k < cons.drop_last().len() && {
            let (y, rel) = pre[m];
            ||| ((#[trigger] cons.drop_last()[k]).cell_a == x && cons.drop_last()[k].cell_b == y && cons.drop_last()[k].relation == rel)
            ||| (cons.drop_last()[k].cell_b == x && cons.drop_last()[k].cell_a == y && flipped(cons.drop_last()[k].relation) == rel)
        };
        assert(cons[k] == cons.drop_last()[k]);
        assert(entries_of(cons, x)[m] == pre[m]);
    } else {
        assert(cons[cons.len() - 1] == c);
        assert(entries_of(cons, x)[m] == e[m - pre.len()]);
    }
}

/// Every registered constraint on `x` shows in `x`'s list of partners.
pub proof fn lemma_entry_present(cons: Seq<Constraint>, x: usize, k: int)
    requires
        0 <= k < cons.len(),
    ensures
        cons[k].cell_a == x ==> entries_of(cons, x).contains((cons[k].cell_b, cons[k].relation)),
        cons[k].cell_b == x ==> entries_of(cons, x).contains((cons[k].cell_a, flipped(cons[k].relation))),
    decreases cons.len(),
{
    let pre = entries_of(cons.drop_last(), x);
    let c = cons.last();
    let e = entries_from(c, x);
    let all = entries_of(cons, x);
    assert(all == pre + e);
    if k < cons.len() - 1 {
        lemma_entry_present(cons.drop_last(), x, k);
        assert(cons.drop_last()[k] == cons[k]);
        assert forall|p: (usize, Relation)| pre.contains(p) implies all.contains(p) by {
            let i = choose|i: int| 0 <= i < pre.len() && pre[i] == p;
            assert(all[i] == pre[i]);
        }
    } else {
        assert(cons[k] == c);
        if c.cell_a == x {
            assert(all[pre.len() as int] == e[0]);
        }
        if c.cell_b == x {
            assert(all[all.len() - 1] == e[e.len() - 1]);
        }
    }
}

/// The registered order constraints, with each cell's partners indexed for lookup
/// in time proportional to the cell's number of constraints.
pub struct ConstraintRegistry {
    edges: Vec<Constraint>,
    cell_restriction: Vec<Vec<(usize, Relation)>>,
}

impl View for ConstraintRegistry {
    type V = Seq<Constraint>;

    closed spec fn view(&self) -> Seq<Constraint> {
        self.edges@
    }
}

impl ConstraintRegistry {
    /// The number of cells that constraints may join.
    pub closed spec fn cells(&self) -> nat {
        self.cell_restriction@.len()
    }

    pub closed spec fn wf(&self) -> bool {
        &&& forall|k: int| 0 <= k < self.edges@.len() ==> (#[trigger] self.edges@[k]).cell_a < self.cells()
            && self.edges@[k].cell_b < self.cells()
        &&& forall|x: int| 0 <= x < self.cells() ==> (#[trigger] self.cell_restriction@[x])@ == entries_of(self.edges@, x as usize)
    }

    /// A registry over `cells` cells with no constraints.
    pub fn new(cells: usize) -> (r: ConstraintRegistry)
        ensures
            r.wf(),
            r.cells() == cells,
            r@ == Seq::<Constraint>::empty(),
    {
        let mut cell_restriction: Vec<Vec<(usize, Relation)>> = Vec::new();
        let mut i: usize = 0;
        while i < cells
            invariant
                i <= cells,
                cell_restriction@.len() == i,
                forall|x: int| 0 <= x < i ==> (#[trigger] cell_restriction@[x])@ == Seq::<(usize, Relation)>::empty(),
            decreases cells - i,
        {
            cell_restriction.push(Vec::new());
            i = i + 1;
        }
        ConstraintRegistry { edges: Vec::new(), cell_restriction }
    }

    /// The number of registered constraints.
    pub fn len(&self) -> (r: usize)
        ensures
            r == self@.len(),
    {
        self.edges.len()
    }

    /// The `k`-th registered constraint.
    pub fn constraint(&self, k: usize) -> (r: Constraint)
        requires
            self.wf(),
            k < self@.len(),
        ensures
            r == self@[k as int],
            r.cell_a < self.cells(),
            r.cell_b < self.cells(),
    {
        self.edges[k]
    }

    /// Records that `cell_a` must stand in `relation` to `cell_b`; earlier constraints
    /// on either cell are kept.
    pub fn add_constraint(&mut self, cell_a: usize, cell_b: usize, relation: Relation)
        requires
            old(self).wf(),
            cell_a < old(self).cells(),
            cell_b < old(self).cells(),
        ensures
            final(self).wf(),
            final(self).cells() == old(self).cells(),
            final(self)@ == old(self)@.push(Constraint { cell_a, cell_b, relation }),
    {
        let c = Constraint { cell_a, cell_b, relation };
        let ghost old_lists = self.cell_restriction@;
        let ghost new_edges = self.edges@.push(c);
        self.edges.push(c);
        let list_a = self.cell_restriction.remove(cell_a);
        let list_a = restriction_func(list_a, cell_b, relation);
        self.cell_restriction.insert(cell_a, list_a);
        let list_b = self.cell_restriction.remove(cell_b);
        let list_b = restriction_func(list_b, cell_a, relation.flip());
        self.cell_restriction.insert(cell_b, list_b);
        let cells = self.cell_restriction.len();
        proof {
            assert(new_edges.drop_last() =~= old(self).edges@);
            assert forall|x: int| 0 <= x < self.cells() implies (#[trigger] self.cell_restriction@[x])@ == entries_of(self.edges@, x as usize) by {
                assert(old_lists[x]@ == entries_of(old(self).edges@, x as usize));
                assert(x < cells);
                let xu = x as usize;
                let e = entries_from(c, xu);
                if xu == cell_a && xu == cell_b {
                    assert(entries_of(old(self).edges@, x as usize) + e =~= entries_of(old(self).edges@, x as usize).push((cell_b, relation)).push((cell_a, flipped(relation))));
                } else if xu == cell_a {
                    assert(entries_of(old(self).edges@, x as usize) + e =~= entries_of(old(self).edges@, x as usize).push((cell_b, relation)));
                } else if xu == cell_b {
                    assert(entries_of(old(self).edges@, x as usize) + e =~= entries_of(old(self).edges@, x as usize).push((cell_a, flipped(relation))));
                } else {
                    assert(e =~= Seq::<(usize, Relation)>::empty());
                    assert(entries_of(old(self).edges@, x as usize) + e =~= entries_of(old(self).edges@, x as usize));
                }
            }
            assert forall|k: int| 0 <= k < self.edges@.len() implies (#[trigger] self.edges@[k]).cell_a < self.cells()
                && self.edges@[k].cell_b < self.cells() by {
                if k < old(self).edges@.len() {
                    assert(self.edges@[k] == old(self).edges@[k]);
                }
            }
        }
    }

    /// The partners of cell `x`, each with the relation required of `x`, in the order
    /// the constraints were registered.
    pub fn partners(&self, x: usize) -> (r: &Vec<(usize, Relation)>)
        requires
            self.wf(),
            x < self.cells(),
        ensures
            r@ == entries_of(self@, x),
            forall|m: int| 0 <= m < r@.len() ==> (#[trigger] r@[m]).0 < self.cells(),
    {
        let r = &self.cell_restriction[x];
        proof {
            assert(r@ == entries_of(self.edges@, x));
            assert forall|m: int| 0 <= m < r@.len() implies (#[trigger] r@[m]).0 < self.cells() by {
                lemma_entry_source(self.edges@, x, m);
            }
        }
        r
    }

    /// The relation required of `x` with respect to `y`, if a constraint joins them.
    pub fn relation_between(&self, x: usize, y: usize) -> (r: Option<Relation>)
        requires
            self.wf(),
            x < self.cells(),
        ensures
            r == relation_in(self@, x, y),
    {
        let list = &self.cell_restriction[x];
        proof {
            lemma_lookup_entries(self.edges@, x, y);
            assert(self.cell_restriction@[x as int]@ == entries_of(self.edges@, x));
        }
        let mut i: usize = 0;
        while i < list.len()
            invariant
                i <= list@.len(),
                lookup(list@, y) == relation_in(self@, x, y),
                forall|k: int| 0 <= k < i ==> (#[trigger] list@[k]).0 != y,
            decreases list@.len() - i,
        {
            let (partner, relation) = list[i];
            if partner == y {
                proof {
                    lemma_lookup_first(list@, y, i as int);
                }
                return Some(relation);
            }
            i = i + 1;
        }
        proof {
            lemma_lookup_first(list@, y, i as int);
        }
        None
    }
}

} // verus!
