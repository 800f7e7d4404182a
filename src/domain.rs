use vstd::prelude::*;

verus! {

/// Strictly increasing: an ordered set of values.
pub open spec fn sorted(s: Seq<u32>) -> bool {
    forall|i: int, j: int| 0 <= i < j < s.len() ==> s[i] < s[j]
}

/// The largest value of an ordered set, 0 for the empty one.
pub open spec fn max_of(s: Seq<u32>) -> u32 {
    if s.len() == 0 {
        0
    } else {
        s.last()
    }
}

/// No member of an ordered set exceeds its last one.
pub proof fn lemma_max_of(s: Seq<u32>, x: u32)
    requires
        sorted(s),
        s.contains(x),
    ensures
        x <= max_of(s),
{
    let k = choose|k: int| 0 <= k < s.len() && s[k] == x;
    if k < s.len() - 1 {
        assert(s[k] < s[s.len() - 1]);
    }
}

/// An ordered set of values in `1..=bound` has at most `bound` members.
pub proof fn lemma_sorted_len(s: Seq<u32>, bound: int)
    requires
        bound >= 0,
        sorted(s),
        forall|k: int| 0 <= k < s.len() ==> 1 <= #[trigger] s[k] <= bound,
    ensures
        s.len() <= bound,
    decreases s.len(),
{
    if s.len() > 0 {
        let t = s.drop_last();
        assert(1 <= s[s.len() - 1] <= bound);
        assert(s.last() == s[s.len() - 1]);
        assert forall|k: int| 0 <= k < t.len() implies 1 <= #[trigger] t[k] <= s.last() - 1 by {
            assert(s[k] < s[s.len() - 1]);
        }
        assert(sorted(t)) by {
            assert forall|i: int, j: int| 0 <= i < j < t.len() implies t[i] < t[j] by {
                assert(t[i] == s[i] && t[j] == s[j]);
            }
        }
        lemma_sorted_len(t, s.last() - 1);
        assert(t.len() == s.len() - 1);
    }
}

/// Two ordered sets with the same members are the same sequence.
pub proof fn lemma_sorted_unique(s: Seq<u32>, t: Seq<u32>)
    requires
        sorted(s),
        sorted(t),
        forall|x: u32| s.contains(x) <==> t.contains(x),
    ensures
        s == t,
    decreases s.len(),
{
    if s.len() == 0 {
        if t.len() > 0 {
            assert(t.contains(t[0]));
        }
        assert(s =~= t);
    } else {
        assert(s.contains(s[0]));
        assert(t.len() > 0);
        assert(t.contains(t[0]));
        let j = choose|j: int| 0 <= j < t.len() && t[j] == s[0];
        let i = choose|i: int| 0 <= i < s.len() && s[i] == t[0];
        assert(s[0] == t[0]);
        assert forall|x: u32| s.drop_first().contains(x) <==> t.drop_first().contains(x) by {
            if s.drop_first().contains(x) {
                let k = choose|k: int| 0 <= k < s.drop_first().len() && s.drop_first()[k] == x;
                assert(s[k + 1] == x);
                assert(s.contains(x));
                let m = choose|m: int| 0 <= m < t.len() && t[m] == x;
                assert(m != 0);
                assert(t.drop_first()[m - 1] == x);
            }
            if t.drop_first().contains(x) {
                let k = choose|k: int| 0 <= k < t.drop_first().len() && t.drop_first()[k] == x;
                assert(t[k + 1] == x);
                assert(t.contains(x));
                let m = choose|m: int| 0 <= m < s.len() && s[m] == x;
                assert(m != 0);
                assert(s.drop_first()[m - 1] == x);
            }
        }
        lemma_sorted_unique(s.drop_first(), t.drop_first());
        assert(s.len() == t.len());
        assert forall|k: int| 0 <= k < s.len() implies s[k] == t[k] by {
            if k > 0 {
                assert(s[k] == s.drop_first()[k - 1]);
                assert(t[k] == t.drop_first()[k - 1]);
            }
        }
        assert(s =~= t);
    }
}

/// For every cell, the values still possible there, each an ordered subset of `1..=dim`.
pub struct DomainTable {
    mvr: Vec<Vec<u32>>,
    dim: usize,
}

impl View for DomainTable {
    type V = Seq<Seq<u32>>;

    closed spec fn view(&self) -> Seq<Seq<u32>> {
        self.mvr@.map_values(|d: Vec<u32>| d@)
    }
}

impl DomainTable {
    /// The largest value a domain may hold.
    pub closed spec fn dim(&self) -> nat {
        self.dim as nat
    }

    pub open spec fn wf(&self) -> bool {
        &&& forall|i: int| 0 <= i < self@.len() ==> sorted(#[trigger] self@[i])
        &&& forall|i: int, k: int| 0 <= i < self@.len() && 0 <= k < self@[i].len() ==> 1 <= #[trigger] self@[i][k] <= self.dim()
    }

    /// `cells` domains, each holding every value of `1..=dim`.
    pub fn new(dim: usize, cells: usize) -> (r: DomainTable)
        requires
            dim <= u32::MAX,
        ensures
            r.wf(),
            r.dim() == dim,
            r@.len() == cells,
            forall|i: int, v: u32| 0 <= i < cells ==> (#[trigger] r@[i].contains(v) <==> 1 <= v <= dim),
    {
        let mut mvr: Vec<Vec<u32>> = Vec::new();
        let mut i: usize = 0;
        while i < cells
            invariant
                i <= cells,
                dim <= u32::MAX,
                mvr@.len() == i,
                forall|j: int| 0 <= j < i ==> (#[trigger] mvr@[j])@.len() == dim
                    && forall|k: int| 0 <= k < dim ==> mvr@[j]@[k] == k + 1,
            decreases cells - i,
        {
            let mut full: Vec<u32> = Vec::new();
            let mut v: usize = 0;
            while v < dim
                invariant
                    v <= dim,
                    dim <= u32::MAX,
                    full@.len() == v,
                    forall|k: int| 0 <= k < v ==> full@[k] == k + 1,
                decreases dim - v,
            {
                full.push((v + 1) as u32);
                v = v + 1;
            }
            mvr.push(full);
            i = i + 1;
        }
        let r = DomainTable { mvr, dim };
        proof {
            assert forall|i: int, v: u32| 0 <= i < cells implies (#[trigger] r@[i].contains(v) <==> 1 <= v <= dim) by {
                if 1 <= v <= dim {
                    assert(r@[i][v - 1] == v);
                }
            }
        }
        r
    }

    /// The values still possible at `cell`, in increasing order.
    pub fn domain_of(&self, cell: usize) -> (r: &Vec<u32>)
        requires
            cell < self@.len(),
        ensures
            r@ == self@[cell as int],
    {
        &self.mvr[cell]
    }

    /// How many values are still possible at `cell`.
    pub fn size_of(&self, cell: usize) -> (r: usize)
        requires
            cell < self@.len(),
        ensures
            r == self@[cell as int].len(),
    {
        self.mvr[cell].len()
    }

    /// Takes `value` out of the domain of `cell`; says whether it was there.
    pub fn remove(&mut self, cell: usize, value: u32) -> (r: bool)
        requires
            old(self).wf(),
            cell < old(self)@.len(),
        ensures
            final(self).wf(),
            final(self).dim() == old(self).dim(),
            r == old(self)@[cell as int].contains(value),
            final(self)@ == old(self)@.update(cell as int, final(self)@[cell as int]),
            forall|x: u32| #[trigger] final(self)@[cell as int].contains(x) <==> old(self)@[cell as int].contains(x) && x != value,
    {
        let d = &self.mvr[cell];
        let mut p: usize = 0;
        while p < d.len() && d[p] != value
            invariant
                p <= d@.len(),
                forall|k: int| 0 <= k < p ==> d@[k] != value,
            decreases d@.len() - p,
        {
            p = p + 1;
        }
        if p == d.len() {
            return false;
        }
        let ghost before = self.mvr@[cell as int]@;
        let ghost old_view = self@;
        self.mvr[cell].remove(p);
        proof {
            let after = before.remove(p as int);
            assert(before == old_view[cell as int]);
            assert(sorted(before));
            assert(before[p as int] == value);
            assert(self.mvr@[cell as int]@ == after);
            assert(self@ =~= old_view.update(cell as int, after));
            assert forall|x: u32| #[trigger] after.contains(x) <==> before.contains(x) && x != value by {
                if before.contains(x) && x != value {
                    let k = choose|k: int| 0 <= k < before.len() && before[k] == x;
                    if k < p {
                        assert(after[k] == x);
                    } else {
                        assert(k > p);
                        assert(after[k - 1] == x);
                    }
                }
                if after.contains(x) {
                    let k = choose|k: int| 0 <= k < after.len() && after[k] == x;
                    if k < p {
                        assert(before[k] == x);
                    } else {
                        assert(before[k + 1] == x);
                    }
                }
            }
            assert(sorted(after));
        }
        true
    }

    /// Puts `value` back into the domain of `cell`, in its place in the order.
    pub fn restore(&mut self, cell: usize, value: u32)
        requires
            old(self).wf(),
            cell < old(self)@.len(),
            1 <= value <= old(self).dim(),
            !old(self)@[cell as int].contains(value),
        ensures
            final(self).wf(),
            final(self).dim() == old(self).dim(),
            final(self)@ == old(self)@.update(cell as int, final(self)@[cell as int]),
            forall|x: u32| #[trigger] final(self)@[cell as int].contains(x) <==> old(self)@[cell as int].contains(x) || x == value,
    {
        let d = &self.mvr[cell];
        let mut p: usize = 0;
        while p < d.len() && d[p] < value
            invariant
                p <= d@.len(),
                forall|k: int| 0 <= k < p ==> d@[k] < value,
            decreases d@.len() - p,
        {
            p = p + 1;
        }
        let ghost before = self.mvr@[cell as int]@;
        let ghost old_view = self@;
        proof {
            assert(before == old_view[cell as int]);
            assert(sorted(before));
            if p < before.len() {
                assert(before[p as int] != value);
            }
        }
        self.mvr[cell].insert(p, value);
        proof {
            let after = before.insert(p as int, value);
            assert(self.mvr@[cell as int]@ == after);
            assert(self@ =~= old_view.update(cell as int, after));
            assert forall|x: u32| #[trigger] after.contains(x) <==> before.contains(x) || x == value by {
                if before.contains(x) {
                    let k = choose|k: int| 0 <= k < before.len() && before[k] == x;
                    if k < p {
                        assert(after[k] == x);
                    } else {
                        assert(after[k + 1] == x);
                    }
                }
                if x == value {
                    assert(after[p as int] == x);
                }
                if after.contains(x) {
                    let k = choose|k: int| 0 <= k < after.len() && after[k] == x;
                    if k < p {
                        assert(before[k] == x);
                    } else if k > p {
                        assert(before[k - 1] == x);
                    }
                }
            }
            assert forall|i: int, j: int| 0 <= i < j < after.len() implies after[i] < after[j] by {
                if j < p {
                } else if j == p {
                } else if i < p {
                    assert(after[j] == before[j - 1]);
                    assert(before[p as int] > value);
                } else if i == p {
                    assert(after[j] == before[j - 1]);
                    assert(before[p as int] > value);
                } else {
                }
            }
        }
    }

    /// One pass of arc consistency for `greater > lesser`: every value of `lesser`'s
    /// domain that is not below the largest value of `greater`'s domain goes.
    pub fn prune(&mut self, greater: usize, lesser: usize)
        requires
            old(self).wf(),
            greater < old(self)@.len(),
            lesser < old(self)@.len(),
        ensures
            final(self).wf(),
            final(self).dim() == old(self).dim(),
            final(self)@ == old(self)@.update(lesser as int, final(self)@[lesser as int]),
            forall|x: u32| #[trigger] final(self)@[lesser as int].contains(x)
                <==> old(self)@[lesser as int].contains(x) && x < max_of(old(self)@[greater as int]),
    {
        let top = &self.mvr[greater];
        let bound: u32 = if top.len() == 0 { 0 } else { top[top.len() - 1] };
        let d = &self.mvr[lesser];
        let mut p: usize = 0;
        while p < d.len() && d[p] < bound
            invariant
                p <= d@.len(),
                forall|k: int| 0 <= k < p ==> d@[k] < bound,
            decreases d@.len() - p,
        {
            p = p + 1;
        }
        let ghost before = self.mvr@[lesser as int]@;
        let ghost old_view = self@;
        proof {
            assert(before == old_view[lesser as int]);
            assert(sorted(before));
            assert(bound == max_of(old_view[greater as int]));
        }
        self.mvr[lesser].truncate(p);
        proof {
            let after = before.subrange(0, p as int);
            assert(self.mvr@[lesser as int]@ == after);
            assert(self@ =~= old_view.update(lesser as int, after));
            assert forall|x: u32| #[trigger] after.contains(x) <==> before.contains(x) && x < bound by {
                if before.contains(x) && x < bound {
                    let k = choose|k: int| 0 <= k < before.len() && before[k] == x;
                    if k >= p {
                        assert(before[p as int] <= before[k]);
                    }
                    assert(after[k] == x);
                }
                if after.contains(x) {
                    let k = choose|k: int| 0 <= k < after.len() && after[k] == x;
                    assert(before[k] == x);
                }
            }
        }
    }
}

} // verus!
