use vstd::prelude::*;

verus! {

/// Strictly increasing sequences.
pub open spec fn strictly_increasing(s: Seq<u32>) -> bool {
    forall|i: int, j: int| 0 <= i < j < s.len() ==> s[i] < s[j]
}

/// Two strictly increasing sequences with the same elements are the same sequence.
proof fn lemma_sorted_unique(a: Seq<u32>, b: Seq<u32>)
    requires
        strictly_increasing(a),
        strictly_increasing(b),
        forall|x: u32| a.contains(x) <==> b.contains(x),
    ensures
        a == b,
    decreases a.len(),
{
    if a.len() == 0 {
        if b.len() > 0 {
            assert(b.contains(b[0]));
        }
    } else {
        assert(a.contains(a[0]));
        assert(b.len() > 0);
        assert(b.contains(b[0]));
        let ia = choose|i: int| 0 <= i < b.len() && b[i] == a[0];
        let ib = choose|i: int| 0 <= i < a.len() && a[i] == b[0];
        assert(a[0] == b[0]) by {
            if ia > 0 {
                assert(b[0] < b[ia]);
            }
            if ib > 0 {
                assert(a[0] < a[ib]);
            }
        }
        let ta = a.drop_first();
        let tb = b.drop_first();
        assert forall|x: u32| ta.contains(x) <==> tb.contains(x) by {
            if ta.contains(x) {
                let i = choose|i: int| 0 <= i < ta.len() && ta[i] == x;
                assert(a[i + 1] == x && a[0] < a[i + 1]);
                assert(a.contains(x));
                let j = choose|j: int| 0 <= j < b.len() && b[j] == x;
                assert(j != 0);
                assert(tb[j - 1] == x);
            }
            if tb.contains(x) {
                let i = choose|i: int| 0 <= i < tb.len() && tb[i] == x;
                assert(b[i + 1] == x && b[0] < b[i + 1]);
                assert(b.contains(x));
                let j = choose|j: int| 0 <= j < a.len() && a[j] == x;
                assert(j != 0);
                assert(ta[j - 1] == x);
            }
        }
        lemma_sorted_unique(ta, tb);
        assert(a == seq![a[0]] + ta);
        assert(b == seq![b[0]] + tb);
    }
}

/// A finite set of 32-bit identifiers (actor ids, table ids, subscriber ids),
/// kept as a strictly increasing vector.
pub struct IdSet {
    ids: Vec<u32>,
}

impl View for IdSet {
    type V = Set<u32>;

    closed spec fn view(&self) -> Set<u32> {
        self.ids@.to_set()
    }
}

impl IdSet {
    /// The identifiers in increasing order.
    pub closed spec fn elems(&self) -> Seq<u32> {
        self.ids@
    }

    pub closed spec fn wf(&self) -> bool {
        strictly_increasing(self.ids@)
    }

    pub proof fn lemma_elems(&self)
        requires
            self.wf(),
        ensures
            strictly_increasing(self.elems()),
            self@ == self.elems().to_set(),
            self@.finite(),
            self@.len() == self.elems().len(),
            forall|x: u32| self@.contains(x) <==> self.elems().contains(x),
    {
        self.ids@.unique_seq_to_set();
        assert(self.ids@.no_duplicates()) by {
            assert forall|i: int, j: int|
                0 <= i < self.ids@.len() && 0 <= j < self.ids@.len() && i != j implies self.ids@[i]
                != self.ids@[j] by {
                if i < j {
                    assert(self.ids@[i] < self.ids@[j]);
                } else {
                    assert(self.ids@[j] < self.ids@[i]);
                }
            }
        }
        self.ids@.unique_seq_to_set();
    }

    pub fn new() -> (r: IdSet)
        ensures
            r.wf(),
            r@ == Set::<u32>::empty(),
    {
        let r = IdSet { ids: Vec::new() };
        assert(r@ =~= Set::<u32>::empty());
        r
    }

    pub fn len(&self) -> (r: usize)
        requires
            self.wf(),
        ensures
            r == self@.len(),
    {
        proof {
            self.lemma_elems();
        }
        self.ids.len()
    }

    pub fn is_empty(&self) -> (r: bool)
        requires
            self.wf(),
        ensures
            r == (self@ == Set::<u32>::empty()),
    {
        proof {
            self.lemma_elems();
        }
        if self.ids.len() == 0 {
            assert(self@ =~= Set::<u32>::empty());
            true
        } else {
            assert(self@.contains(self.ids@[0]));
            false
        }
    }

    /// The `i`-th smallest identifier.
    pub fn get(&self, i: usize) -> (r: u32)
        requires
            self.wf(),
            i < self.elems().len(),
        ensures
            r == self.elems()[i as int],
    {
        self.ids[i]
    }

    /// Position of the first identifier that is not below `x`.
    fn lower_bound(&self, x: u32) -> (r: usize)
        requires
            self.wf(),
        ensures
            r <= self.ids@.len(),
            forall|i: int| 0 <= i < r ==> self.ids@[i] < x,
            forall|i: int| r <= i < self.ids@.len() ==> self.ids@[i] >= x,
    {
        let mut lo: usize = 0;
        let mut hi: usize = self.ids.len();
        while lo < hi
            invariant
                self.wf(),
                lo <= hi <= self.ids@.len(),
                forall|i: int| 0 <= i < lo ==> self.ids@[i] < x,
                forall|i: int| hi <= i < self.ids@.len() ==> self.ids@[i] >= x,
            decreases hi - lo,
        {
            let mid = lo + (hi - lo) / 2;
            if self.ids[mid] < x {
                lo = mid + 1;
            } else {
                hi = mid;
            }
        }
        lo
    }

    pub fn contains(&self, x: u32) -> (r: bool)
        requires
            self.wf(),
        ensures
            r == self@.contains(x),
    {
        proof {
            self.lemma_elems();
        }
        let p = self.lower_bound(x);
        if p < self.ids.len() && self.ids[p] == x {
            true
        } else {
            assert(!self.ids@.contains(x)) by {
                if self.ids@.contains(x) {
                    let i = choose|i: int| 0 <= i < self.ids@.len() && self.ids@[i] == x;
                    if i < p {
                    } else if i > p {
                        assert(self.ids@[p as int] < self.ids@[i]);
                    }
                }
            }
            false
        }
    }

    /// Adds `x`; returns whether it was absent.
    pub fn insert(&mut self, x: u32) -> (r: bool)
        requires
            old(self).wf(),
        ensures
            final(self).wf(),
            final(self)@ == old(self)@.insert(x),
            r == !old(self)@.contains(x),
    {
        proof {
            self.lemma_elems();
        }
        let p = self.lower_bound(x);
        if p < self.ids.len() && self.ids[p] == x {
            assert(self@.contains(x));
            assert(self@ =~= self@.insert(x));
            false
        } else {
            let ghost before = self.ids@;
            self.ids.insert(p, x);
            assert(self.ids@ == before.subrange(0, p as int).push(x) + before.subrange(
                p as int,
                before.len() as int,
            ));
            assert(strictly_increasing(self.ids@)) by {
                assert forall|i: int, j: int| 0 <= i < j < self.ids@.len() implies self.ids@[i]
                    < self.ids@[j] by {
                    if j < p {
                        assert(self.ids@[i] == before[i] && self.ids@[j] == before[j]);
                    } else if j == p {
                        assert(self.ids@[i] == before[i]);
                    } else if i < p {
                        assert(self.ids@[i] == before[i] && self.ids@[j] == before[j - 1]);
                    } else if i == p {
                        assert(self.ids@[j] == before[j - 1]);
                        assert(before[p as int] != x);
                    } else {
                        assert(self.ids@[i] == before[i - 1] && self.ids@[j] == before[j - 1]);
                    }
                }
            }
            assert(!before.contains(x)) by {
                if before.contains(x) {
                    let i = choose|i: int| 0 <= i < before.len() && before[i] == x;
                    if i > p {
                        assert(before[p as int] < before[i]);
                    }
                }
            }
            assert(self@ =~= old(self)@.insert(x)) by {
                assert forall|y: u32| self.ids@.contains(y) <==> (before.contains(y) || y == x) by {
                    if self.ids@.contains(y) {
                        let i = choose|i: int| 0 <= i < self.ids@.len() && self.ids@[i] == y;
                        if i < p {
                            assert(before[i] == y);
                        } else if i > p {
                            assert(before[i - 1] == y);
                        }
                    }
                    if before.contains(y) {
                        let i = choose|i: int| 0 <= i < before.len() && before[i] == y;
                        if i < p {
                            assert(self.ids@[i] == y);
                        } else {
                            assert(self.ids@[i + 1] == y);
                        }
                    }
                    if y == x {
                        assert(self.ids@[p as int] == x);
                    }
                }
            }
            true
        }
    }

    /// Removes `x`; returns whether it was present.
    pub fn remove(&mut self, x: u32) -> (r: bool)
        requires
            old(self).wf(),
        ensures
            final(self).wf(),
            final(self)@ == old(self)@.remove(x),
            r == old(self)@.contains(x),
    {
        proof {
            self.lemma_elems();
        }
        let p = self.lower_bound(x);
        if p < self.ids.len() && self.ids[p] == x {
            let ghost before = self.ids@;
            self.ids.remove(p);
            assert(self.ids@ == before.subrange(0, p as int) + before.subrange(
                p as int + 1,
                before.len() as int,
            ));
            assert(strictly_increasing(self.ids@)) by {
                assert forall|i: int, j: int| 0 <= i < j < self.ids@.len() implies self.ids@[i]
                    < self.ids@[j] by {
                    if j < p {
                        assert(self.ids@[i] == before[i] && self.ids@[j] == before[j]);
                    } else if i < p {
                        assert(self.ids@[i] == before[i] && self.ids@[j] == before[j + 1]);
                    } else {
                        assert(self.ids@[i] == before[i + 1] && self.ids@[j] == before[j + 1]);
                    }
                }
            }
            assert(self@ =~= old(self)@.remove(x)) by {
                assert forall|y: u32| self.ids@.contains(y) <==> (before.contains(y) && y != x) by {
                    if self.ids@.contains(y) {
                        let i = choose|i: int| 0 <= i < self.ids@.len() && self.ids@[i] == y;
                        if i < p {
                            assert(before[i] == y);
                            assert(before[i] < before[p as int]);
                        } else {
                            assert(before[i + 1] == y);
                            assert(before[p as int] < before[i + 1]);
                        }
                    }
                    if before.contains(y) && y != x {
                        let i = choose|i: int| 0 <= i < before.len() && before[i] == y;
                        if i < p {
                            assert(self.ids@[i] == y);
                        } else {
                            assert(i != p);
                            assert(self.ids@[i - 1] == y);
                        }
                    }
                }
            }
            true
        } else {
            assert(!self.ids@.contains(x)) by {
                if self.ids@.contains(x) {
                    let i = choose|i: int| 0 <= i < self.ids@.len() && self.ids@[i] == x;
                    if i > p {
                        assert(self.ids@[p as int] < self.ids@[i]);
                    }
                }
            }
            assert(self@ =~= old(self)@.remove(x));
            false
        }
    }

    /// The set of the identifiers listed in `ids`, duplicates allowed.
    pub fn from_ids(ids: &Vec<u32>) -> (r: IdSet)
        ensures
            r.wf(),
            r@ == ids@.to_set(),
    {
        let mut r = IdSet::new();
        let mut i: usize = 0;
        while i < ids.len()
            invariant
                i <= ids@.len(),
                r.wf(),
                r@ == ids@.subrange(0, i as int).to_set(),
            decreases ids@.len() - i,
        {
            r.insert(ids[i]);
            proof {
                let s = ids@.subrange(0, i as int);
                assert(ids@.subrange(0, i + 1) == s.push(ids@[i as int]));
                s.lemma_push_to_set_commute(ids@[i as int]);
            }
            i = i + 1;
        }
        assert(ids@.subrange(0, ids@.len() as int) == ids@);
        r
    }

    /// Whether both sets hold the same identifiers.
    pub fn same_as(&self, other: &IdSet) -> (r: bool)
        requires
            self.wf(),
            other.wf(),
        ensures
            r == (self@ == other@),
    {
        proof {
            self.lemma_elems();
            other.lemma_elems();
        }
        if self.ids.len() != other.ids.len() {
            return false;
        }
        let mut i: usize = 0;
        while i < self.ids.len()
            invariant
                self.wf(),
                other.wf(),
                self.ids@.len() == other.ids@.len(),
                i <= self.ids@.len(),
                forall|k: int| 0 <= k < i ==> self.ids@[k] == other.ids@[k],
            decreases self.ids@.len() - i,
        {
            if self.ids[i] != other.ids[i] {
                proof {
                    if self@ == other@ {
                        assert forall|x: u32| self.ids@.contains(x) <==> other.ids@.contains(x) by {
                            assert(self@.contains(x) == other@.contains(x));
                        }
                        lemma_sorted_unique(self.ids@, other.ids@);
                    }
                }
                return false;
            }
            i = i + 1;
        }
        assert(self.ids@ == other.ids@);
        true
    }

    pub fn clone_set(&self) -> (r: IdSet)
        ensures
            self.wf() ==> r.wf(),
            r@ == self@,
            r.elems() == self.elems(),
    {
        let mut ids: Vec<u32> = Vec::new();
        let mut i: usize = 0;
        while i < self.ids.len()
            invariant
                i <= self.ids@.len(),
                ids@ == self.ids@.subrange(0, i as int),
            decreases self.ids@.len() - i,
        {
            ids.push(self.ids[i]);
            i = i + 1;
        }
        assert(ids@ == self.ids@);
        IdSet { ids }
    }

    /// The identifiers, in increasing order.
    pub fn to_vec(&self) -> (r: Vec<u32>)
        ensures
            r@ == self.elems(),
    {
        let mut out: Vec<u32> = Vec::new();
        let mut i: usize = 0;
        while i < self.ids.len()
            invariant
                i <= self.ids@.len(),
                out@ == self.ids@.subrange(0, i as int),
            decreases self.ids@.len() - i,
        {
            out.push(self.ids[i]);
            i = i + 1;
        }
        assert(out@ == self.ids@);
        out
    }
}

} // verus!
