use vstd::prelude::*;

verus! {

/// Number of `true` entries in a sequence of flags.
pub open spec fn count_true(s: Seq<bool>) -> nat
    decreases s.len(),
{
    if s.len() == 0 {
        0
    } else {
        count_true(s.drop_last()) + if s.last() { 1nat } else { 0nat }
    }
}

/// The indices below `k` whose flag is set.
pub open spec fn set_prefix(s: Seq<bool>, k: int) -> Set<int> {
    Set::new(|i: int| 0 <= i < k && i < s.len() && s[i])
}

proof fn lemma_set_prefix_len(s: Seq<bool>, k: int)
    requires
        0 <= k <= s.len(),
    ensures
        set_prefix(s, k).finite(),
        set_prefix(s, k).len() == count_true(s.take(k)),
    decreases k,
{
    if k == 0 {
        assert(set_prefix(s, 0) =~= Set::<int>::empty());
        assert(s.take(0) =~= Seq::<bool>::empty());
    } else {
        lemma_set_prefix_len(s, k - 1);
        assert(s.take(k).drop_last() =~= s.take(k - 1));
        if s[k - 1] {
            assert(set_prefix(s, k) =~= set_prefix(s, k - 1).insert(k - 1));
            assert(!set_prefix(s, k - 1).contains(k - 1));
        } else {
            assert(set_prefix(s, k) =~= set_prefix(s, k - 1));
        }
    }
}

/// A set of indices drawn from the domain `0..size`, stored as one flag per index.
pub struct IndexSet {
    bits: Vec<bool>,
}

impl View for IndexSet {
    type V = Set<int>;

    closed spec fn view(&self) -> Set<int> {
        set_prefix(self.bits@, self.bits@.len() as int)
    }
}

impl IndexSet {
    /// The size of the domain the set's elements are drawn from.
    pub closed spec fn size(&self) -> nat {
        self.bits@.len()
    }

    /// Every element lies in the domain, and the set is finite.
    pub proof fn lemma_bounded(&self)
        ensures
            forall|i: int| #[trigger] self@.contains(i) ==> 0 <= i < self.size(),
            self@.finite(),
    {
        lemma_set_prefix_len(self.bits@, self.bits@.len() as int);
    }

    /// The empty set over a domain of `size` indices.
    pub fn new(size: usize) -> (s: Self)
        ensures
            s@ == Set::<int>::empty(),
            s.size() == size,
    {
        let mut bits: Vec<bool> = Vec::new();
        let mut i: usize = 0;
        while i < size
            invariant
                i <= size,
                bits@.len() == i,
                forall|j: int| 0 <= j < i ==> !bits@[j],
            decreases size - i,
        {
            bits.push(false);
            i = i + 1;
        }
        let s = IndexSet { bits };
        assert(s@ =~= Set::<int>::empty());
        s
    }

    /// The domain size.
    pub fn domain_size(&self) -> (n: usize)
        ensures
            n == self.size(),
    {
        self.bits.len()
    }

    /// Whether `index` is in the set.
    pub fn contains(&self, index: usize) -> (b: bool)
        requires
            index < self.size(),
        ensures
            b == self@.contains(index as int),
    {
        self.bits[index]
    }

    /// Adds `index`; returns whether the set grew.
    pub fn insert(&mut self, index: usize) -> (changed: bool)
        requires
            index < old(self).size(),
        ensures
            final(self)@ == old(self)@.insert(index as int),
            final(self).size() == old(self).size(),
            changed == !old(self)@.contains(index as int),
    {
        let was = self.bits[index];
        self.bits.set(index, true);
        assert(self@ =~= old(self)@.insert(index as int));
        !was
    }

    /// Removes `index`; returns whether the set shrank.
    pub fn remove(&mut self, index: usize) -> (changed: bool)
        requires
            index < old(self).size(),
        ensures
            final(self)@ == old(self)@.remove(index as int),
            final(self).size() == old(self).size(),
            changed == old(self)@.contains(index as int),
    {
        let was = self.bits[index];
        self.bits.set(index, false);
        assert(self@ =~= old(self)@.remove(index as int));
        was
    }

    /// Removes every element, keeping the domain.
    pub fn clear(&mut self)
        ensures
            final(self)@ == Set::<int>::empty(),
            final(self).size() == old(self).size(),
    {
        let n = self.bits.len();
        let mut i: usize = 0;
        while i < n
            invariant
                i <= n,
                self.bits@.len() == n,
                forall|j: int| 0 <= j < i ==> !self.bits@[j],
            decreases n - i,
        {
            self.bits.set(i, false);
            i = i + 1;
        }
        assert(self@ =~= Set::<int>::empty());
    }

    /// Adds every element of `other`; returns whether the set grew.
    pub fn union(&mut self, other: &IndexSet) -> (changed: bool)
        requires
            old(self).size() == other.size(),
        ensures
            final(self)@ == old(self)@.union(other@),
            final(self).size() == old(self).size(),
            changed == !other@.subset_of(old(self)@),
    {
        let n = self.bits.len();
        let mut changed = false;
        let mut i: usize = 0;
        while i < n
            invariant
                i <= n,
                n == other.bits@.len(),
                self.bits@.len() == n,
                forall|j: int|
                    0 <= j < n ==> #[trigger] self.bits@[j] == if j < i {
                        old(self).bits@[j] || other.bits@[j]
                    } else {
                        old(self).bits@[j]
                    },
                changed == exists|j: int| 0 <= j < i && other.bits@[j] && !old(self).bits@[j],
            decreases n - i,
        {
            if other.bits[i] && !self.bits[i] {
                self.bits.set(i, true);
                changed = true;
            }
            i = i + 1;
        }
        assert(self@ =~= old(self)@.union(other@));
        if changed {
            proof {
                let j = choose|j: int| 0 <= j < n && other.bits@[j] && !old(self).bits@[j];
                assert(other@.contains(j) && !old(self)@.contains(j));
            }
        }
        changed
    }

    /// Removes every element of `other`; returns whether the set shrank.
    pub fn subtract(&mut self, other: &IndexSet) -> (changed: bool)
        requires
            old(self).size() == other.size(),
        ensures
            final(self)@ == old(self)@.difference(other@),
            final(self).size() == old(self).size(),
            changed == !old(self)@.disjoint(other@),
    {
        let n = self.bits.len();
        let mut changed = false;
        let mut i: usize = 0;
        while i < n
            invariant
                i <= n,
                n == other.bits@.len(),
                self.bits@.len() == n,
                forall|j: int|
                    0 <= j < n ==> #[trigger] self.bits@[j] == if j < i {
                        old(self).bits@[j] && !other.bits@[j]
                    } else {
                        old(self).bits@[j]
                    },
                changed == exists|j: int| 0 <= j < i && other.bits@[j] && old(self).bits@[j],
            decreases n - i,
        {
            if other.bits[i] && self.bits[i] {
                self.bits.set(i, false);
                changed = true;
            }
            i = i + 1;
        }
        assert(self@ =~= old(self)@.difference(other@));
        if changed {
            proof {
                let j = choose|j: int| 0 <= j < n && other.bits@[j] && old(self).bits@[j];
                assert(other@.contains(j) && old(self)@.contains(j));
            }
        }
        changed
    }

    /// Keeps only the elements also in `other`; returns whether the set shrank.
    pub fn intersect(&mut self, other: &IndexSet) -> (changed: bool)
        requires
            old(self).size() == other.size(),
        ensures
            final(self)@ == old(self)@.intersect(other@),
            final(self).size() == old(self).size(),
            changed == !old(self)@.subset_of(other@),
    {
        let n = self.bits.len();
        let mut changed = false;
        let mut i: usize = 0;
        while i < n
            invariant
                i <= n,
                n == other.bits@.len(),
                self.bits@.len() == n,
                forall|j: int|
                    0 <= j < n ==> #[trigger] self.bits@[j] == if j < i {
                        old(self).bits@[j] && other.bits@[j]
                    } else {
                        old(self).bits@[j]
                    },
                changed == exists|j: int| 0 <= j < i && !other.bits@[j] && old(self).bits@[j],
            decreases n - i,
        {
            if !other.bits[i] && self.bits[i] {
                self.bits.set(i, false);
                changed = true;
            }
            i = i + 1;
        }
        assert(self@ =~= old(self)@.intersect(other@));
        if changed {
            proof {
                let j = choose|j: int| 0 <= j < n && !other.bits@[j] && old(self).bits@[j];
                assert(!other@.contains(j) && old(self)@.contains(j));
            }
        }
        changed
    }

    /// Whether every element of `other` is in this set.
    pub fn is_superset(&self, other: &IndexSet) -> (b: bool)
        requires
            self.size() == other.size(),
        ensures
            b == other@.subset_of(self@),
    {
        let n = self.bits.len();
        let mut i: usize = 0;
        while i < n
            invariant
                i <= n,
                n == other.bits@.len(),
                n == self.bits@.len(),
                forall|j: int| 0 <= j < i ==> other.bits@[j] ==> self.bits@[j],
            decreases n - i,
        {
            if other.bits[i] && !self.bits[i] {
                assert(other@.contains(i as int) && !self@.contains(i as int));
                return false;
            }
            i = i + 1;
        }
        true
    }

    /// Whether the two sets share an element.
    pub fn intersects(&self, other: &IndexSet) -> (b: bool)
        requires
            self.size() == other.size(),
        ensures
            b == exists|i: int| self@.contains(i) && other@.contains(i),
    {
        let n = self.bits.len();
        let mut i: usize = 0;
        while i < n
            invariant
                i <= n,
                n == other.bits@.len(),
                n == self.bits@.len(),
                forall|j: int| 0 <= j < i ==> !(self.bits@[j] && other.bits@[j]),
            decreases n - i,
        {
            if self.bits[i] && other.bits[i] {
                assert(self@.contains(i as int) && other@.contains(i as int));
                return true;
            }
            i = i + 1;
        }
        assert forall|j: int| !(self@.contains(j) && other@.contains(j)) by {
            if self@.contains(j) {
                assert(0 <= j < n && self.bits@[j]);
            }
        }
        false
    }

    /// Set equality, decided as mutual inclusion.
    pub fn set_eq(&self, other: &IndexSet) -> (b: bool)
        requires
            self.size() == other.size(),
        ensures
            b == (self@ == other@),
    {
        let a = self.is_superset(other);
        let b = other.is_superset(self);
        if a && b {
            assert(self@ =~= other@);
        }
        a && b
    }

    /// The lattice join: union, reporting whether anything was added.
    pub fn join(&mut self, other: &IndexSet) -> (changed: bool)
        requires
            old(self).size() == other.size(),
        ensures
            final(self)@ == old(self)@.union(other@),
            final(self).size() == old(self).size(),
            changed == !other@.subset_of(old(self)@),
    {
        self.union(other)
    }

    /// The number of elements.
    pub fn len(&self) -> (n: usize)
        ensures
            n == self@.len(),
    {
        let len = self.bits.len();
        let mut n: usize = 0;
        let mut i: usize = 0;
        while i < len
            invariant
                i <= len,
                len == self.bits@.len(),
                n == count_true(self.bits@.take(i as int)),
                n <= i,
            decreases len - i,
        {
            assert(self.bits@.take(i + 1).drop_last() =~= self.bits@.take(i as int));
            if self.bits[i] {
                n = n + 1;
            }
            i = i + 1;
        }
        proof {
            assert(self.bits@.take(len as int) =~= self.bits@);
            lemma_set_prefix_len(self.bits@, len as int);
        }
        n
    }

    /// The elements in increasing order.
    pub fn indices(&self) -> (v: Vec<usize>)
        ensures
            forall|k: int| 0 <= k < v@.len() ==> self@.contains(#[trigger] v@[k] as int),
            forall|i: int| self@.contains(i) ==> exists|k: int| 0 <= k < v@.len() && v@[k] == i,
            forall|k1: int, k2: int| 0 <= k1 < k2 < v@.len() ==> v@[k1] < v@[k2],
    {
        let n = self.bits.len();
        let mut v: Vec<usize> = Vec::new();
        let mut i: usize = 0;
        while i < n
            invariant
                i <= n,
                n == self.bits@.len(),
                forall|k: int| 0 <= k < v@.len() ==> #[trigger] v@[k] < i && self.bits@[v@[k] as int],
                forall|j: int| 0 <= j < i && self.bits@[j] ==> exists|k: int| 0 <= k < v@.len() && v@[k] == j,
                forall|k1: int, k2: int| 0 <= k1 < k2 < v@.len() ==> v@[k1] < v@[k2],
            decreases n - i,
        {
            let ghost prev = v@;
            if self.bits[i] {
                v.push(i);
                assert(v@[v@.len() - 1] == i);
            }
            assert forall|j: int| 0 <= j < i + 1 && self.bits@[j] implies exists|k: int|
                0 <= k < v@.len() && v@[k] == j by {
                if j == i {
                    assert(v@[v@.len() - 1] == j);
                } else {
                    let k = choose|k: int| 0 <= k < prev.len() && prev[k] == j;
                    assert(v@[k] == j);
                }
            }
            i = i + 1;
        }
        assert forall|k: int| 0 <= k < v@.len() implies self@.contains(#[trigger] v@[k] as int) by {
            assert(v@[k] < n && self.bits@[v@[k] as int]);
        }
        v
    }

    /// A copy of the set.
    pub fn to_owned(&self) -> (s: IndexSet)
        ensures
            s@ == self@,
            s.size() == self.size(),
    {
        IndexSet { bits: self.bits.clone() }
    }

    /// Collects the given indices into a set over a domain of `size` indices.
    pub fn collect_indices(indices: &Vec<usize>, size: usize) -> (s: IndexSet)
        requires
            forall|k: int| 0 <= k < indices@.len() ==> #[trigger] indices@[k] < size,
        ensures
            s.size() == size,
            forall|i: int| s@.contains(i) <==> exists|k: int| 0 <= k < indices@.len() && indices@[k] == i,
    {
        let mut s = IndexSet::new(size);
        let mut k: usize = 0;
        while k < indices.len()
            invariant
                k <= indices@.len(),
                s.size() == size,
                forall|k2: int| 0 <= k2 < indices@.len() ==> #[trigger] indices@[k2] < size,
                forall|i: int| s@.contains(i) <==> exists|k2: int| 0 <= k2 < k && indices@[k2] == i,
            decreases indices@.len() - k,
        {
            s.insert(indices[k]);
            assert forall|i: int| s@.contains(i) <==> exists|k2: int| 0 <= k2 < k + 1 && indices@[k2] == i by {
                if i == indices@[k as int] {
                    assert(indices@[k as int] == i);
                }
            }
            k = k + 1;
        }
        s
    }
}

/// A matrix of index sets: each row index maps to an optional set of column
/// indices. Rows are materialised on first write; `num_rows` is one past the
/// highest row ever materialised.
pub struct IndexMatrix {
    rows: Vec<Option<IndexSet>>,
    num_columns: usize,
}

impl IndexMatrix {
    /// The column domain size.
    pub closed spec fn columns(&self) -> nat {
        self.num_columns as nat
    }

    /// One past the highest materialised row.
    pub closed spec fn nrows(&self) -> nat {
        self.rows@.len()
    }

    /// Whether row `r` has been materialised.
    pub closed spec fn has_row(&self, r: int) -> bool {
        0 <= r < self.rows@.len() && self.rows@[r] is Some
    }

    /// The contents of row `r` (empty when the row is absent).
    pub closed spec fn row(&self, r: int) -> Set<int> {
        if self.has_row(r) {
            self.rows@[r]->Some_0@
        } else {
            Set::empty()
        }
    }

    /// Some row in `lo..hi` is materialised.
    pub closed spec fn has_row_in(&self, lo: int, hi: int) -> bool {
        exists|r2: int| lo <= r2 < hi && #[trigger] self.has_row(r2)
    }

    proof fn lemma_has_row_in_step(&self, r: int, i: int)
        ensures
            self.has_row_in(r, i + 1) == (self.has_row_in(r, i) || (r <= i && self.has_row(i))),
    {
        if self.has_row_in(r, i + 1) {
            let r2 = choose|r2: int| r <= r2 < i + 1 && #[trigger] self.has_row(r2);
            if r2 < i {
                assert(self.has_row_in(r, i));
            }
        }
        if self.has_row_in(r, i) {
            let r2 = choose|r2: int| r <= r2 < i && #[trigger] self.has_row(r2);
            assert(r <= r2 < i + 1 && self.has_row(r2));
        }
        if r <= i && self.has_row(i) {
            assert(r <= i < i + 1 && self.has_row(i));
        }
    }

    /// Every materialised row ranges over the column domain.
    pub closed spec fn wf(&self) -> bool {
        forall|r: int| 0 <= r < self.rows@.len() && self.rows@[r] is Some ==> (#[trigger] self.rows@[r])->Some_0.size() == self.num_columns
    }

    /// Row contents lie in the column domain.
    pub proof fn lemma_row_bounded(&self, r: int)
        requires
            self.wf(),
        ensures
            forall|c: int| #[trigger] self.row(r).contains(c) ==> 0 <= c < self.columns(),
            self.row(r).finite(),
    {
        if self.has_row(r) {
            self.rows@[r]->Some_0.lemma_bounded();
        }
    }

    /// A row never materialised is empty.
    pub proof fn lemma_absent_row_empty(&self, r: int)
        ensures
            !self.has_row(r) ==> self.row(r) == Set::<int>::empty(),
    {
    }

    /// Rows outside `0..nrows()` are empty.
    pub proof fn lemma_row_outside(&self, r: int)
        ensures
            (r < 0 || r >= self.nrows()) ==> self.row(r) == Set::<int>::empty() && !self.has_row(r),
    {
    }

    /// An empty matrix whose rows range over `num_columns` columns.
    pub fn new(num_columns: usize) -> (m: Self)
        ensures
            m.wf(),
            m.columns() == num_columns,
            m.nrows() == 0,
            forall|r: int| !m.has_row(r),
            forall|r: int| m.row(r) == Set::<int>::empty(),
    {
        IndexMatrix { rows: Vec::new(), num_columns }
    }

    /// The column domain size.
    pub fn num_columns(&self) -> (n: usize)
        ensures
            n == self.columns(),
    {
        self.num_columns
    }

    /// One past the highest materialised row.
    pub fn num_rows(&self) -> (n: usize)
        ensures
            n == self.nrows(),
    {
        self.rows.len()
    }

    fn ensure_row(&mut self, r: usize)
        requires
            old(self).wf(),
        ensures
            final(self).wf(),
            final(self).columns() == old(self).columns(),
            final(self).has_row(r as int),
            final(self).nrows() == if r < old(self).nrows() { old(self).nrows() as int } else { r + 1 },
            forall|r2: int| r2 != r ==> final(self).has_row(r2) == old(self).has_row(r2),
            forall|r2: int| #[trigger] final(self).row(r2) == old(self).row(r2),
    {
        while self.rows.len() <= r
            invariant
                self.wf(),
                self.num_columns == old(self).num_columns,
                old(self).rows@.len() <= self.rows@.len() <= if r < old(self).nrows() { old(self).nrows() as int } else { r + 1 },
                forall|r2: int| 0 <= r2 < old(self).rows@.len() ==> self.rows@[r2] == old(self).rows@[r2],
                forall|r2: int| old(self).rows@.len() <= r2 < self.rows@.len() ==> self.rows@[r2] is None,
            decreases r + 1 - self.rows@.len(),
        {
            self.rows.push(None);
        }
        if self.rows[r].is_none() {
            let s = IndexSet::new(self.num_columns);
            self.rows.set(r, Some(s));
        }
        assert forall|r2: int| #[trigger] self.row(r2) == old(self).row(r2) by {
            if r2 == r && !old(self).has_row(r2) {
                assert(self.row(r2) =~= Set::<int>::empty());
            }
        }
    }

    /// Adds column `c` to row `r`; returns whether the row grew.
    pub fn insert(&mut self, r: usize, c: usize) -> (changed: bool)
        requires
            old(self).wf(),
            c < old(self).columns(),
        ensures
            final(self).wf(),
            final(self).columns() == old(self).columns(),
            final(self).has_row(r as int),
            final(self).row(r as int) == old(self).row(r as int).insert(c as int),
            final(self).nrows() == if r < old(self).nrows() { old(self).nrows() as int } else { r + 1 },
            forall|r2: int| r2 != r ==> final(self).has_row(r2) == old(self).has_row(r2),
            forall|r2: int| r2 != r ==> #[trigger] final(self).row(r2) == old(self).row(r2),
            changed == !old(self).row(r as int).contains(c as int),
    {
        self.ensure_row(r);
        let mut s = self.take_row(r);
        let changed = s.insert(c);
        self.put_row(r, s);
        changed
    }

    /// A copy of the materialised row `r`.
    fn take_row(&self, r: usize) -> (s: IndexSet)
        requires
            self.wf(),
            self.has_row(r as int),
        ensures
            s@ == self.row(r as int),
            s.size() == self.columns(),
    {
        match &self.rows[r] {
            Some(s) => s.to_owned(),
            None => IndexSet::new(self.num_columns),
        }
    }

    /// Stores `s` as the contents of row `r`.
    fn put_row(&mut self, r: usize, s: IndexSet)
        requires
            old(self).wf(),
            old(self).has_row(r as int),
            s.size() == old(self).columns(),
        ensures
            final(self).wf(),
            final(self).columns() == old(self).columns(),
            final(self).nrows() == old(self).nrows(),
            final(self).has_row(r as int),
            final(self).row(r as int) == s@,
            forall|r2: int| final(self).has_row(r2) == old(self).has_row(r2),
            forall|r2: int| r2 != r ==> #[trigger] final(self).row(r2) == old(self).row(r2),
    {
        self.rows.set(r, Some(s));
    }

    /// Unions `from` into row `r`; returns whether the row grew.
    pub fn union_into_row(&mut self, r: usize, from: &IndexSet) -> (changed: bool)
        requires
            old(self).wf(),
            from.size() == old(self).columns(),
        ensures
            final(self).wf(),
            final(self).columns() == old(self).columns(),
            final(self).has_row(r as int),
            final(self).row(r as int) == old(self).row(r as int).union(from@),
            final(self).nrows() == if r < old(self).nrows() { old(self).nrows() as int } else { r + 1 },
            forall|r2: int| r2 != r ==> final(self).has_row(r2) == old(self).has_row(r2),
            forall|r2: int| r2 != r ==> #[trigger] final(self).row(r2) == old(self).row(r2),
            changed == !from@.subset_of(old(self).row(r as int)),
    {
        self.ensure_row(r);
        let mut s = self.take_row(r);
        let changed = s.union(from);
        self.put_row(r, s);
        changed
    }

    /// Empties row `r` if it is materialised; an absent row stays absent.
    pub fn clear_row(&mut self, r: usize)
        requires
            old(self).wf(),
        ensures
            final(self).wf(),
            final(self).columns() == old(self).columns(),
            final(self).nrows() == old(self).nrows(),
            final(self).row(r as int) == Set::<int>::empty(),
            forall|r2: int| final(self).has_row(r2) == old(self).has_row(r2),
            forall|r2: int| r2 != r ==> #[trigger] final(self).row(r2) == old(self).row(r2),
    {
        if r < self.rows.len() && self.rows[r].is_some() {
            let mut s = self.take_row(r);
            s.clear();
            self.put_row(r, s);
        }
    }

    /// The materialised row `r`, if any.
    pub fn row_set(&self, r: usize) -> (res: Option<&IndexSet>)
        requires
            self.wf(),
        ensures
            res is Some <==> self.has_row(r as int),
            res matches Some(s) ==> s@ == self.row(r as int) && s.size() == self.columns(),
            res is None ==> self.row(r as int) == Set::<int>::empty(),
    {
        if r < self.rows.len() {
            match &self.rows[r] {
                Some(s) => Some(s),
                None => None,
            }
        } else {
            None
        }
    }

    /// The columns of row `r` in increasing order (none when the row is absent).
    pub fn row_indices(&self, r: usize) -> (v: Vec<usize>)
        requires
            self.wf(),
        ensures
            forall|k: int| 0 <= k < v@.len() ==> self.row(r as int).contains(#[trigger] v@[k] as int),
            forall|c: int| self.row(r as int).contains(c) ==> exists|k: int| 0 <= k < v@.len() && v@[k] == c,
            forall|k1: int, k2: int| 0 <= k1 < k2 < v@.len() ==> v@[k1] < v@[k2],
    {
        match self.row_set(r) {
            Some(s) => s.indices(),
            None => Vec::new(),
        }
    }

    /// Whether column `c` is in row `r`.
    pub fn contains(&self, r: usize, c: usize) -> (b: bool)
        requires
            self.wf(),
            c < self.columns(),
        ensures
            b == self.row(r as int).contains(c as int),
    {
        match self.row_set(r) {
            Some(s) => s.contains(c),
            None => false,
        }
    }

    /// A copy of the matrix.
    pub fn to_owned(&self) -> (m: IndexMatrix)
        requires
            self.wf(),
        ensures
            m.wf(),
            m.columns() == self.columns(),
            m.nrows() == self.nrows(),
            forall|r: int| m.has_row(r) == self.has_row(r),
            forall|r: int| #[trigger] m.row(r) == self.row(r),
    {
        let mut rows: Vec<Option<IndexSet>> = Vec::new();
        let mut i: usize = 0;
        while i < self.rows.len()
            invariant
                self.wf(),
                i <= self.rows@.len(),
                rows@.len() == i,
                forall|r: int| 0 <= r < i ==> (rows@[r] is Some) == (self.rows@[r] is Some),
                forall|r: int| 0 <= r < i && rows@[r] is Some ==> (#[trigger] rows@[r])->Some_0@ == self.rows@[r]->Some_0@
                    && rows@[r]->Some_0.size() == self.num_columns,
            decreases self.rows@.len() - i,
        {
            let row = match &self.rows[i] {
                Some(s) => Some(s.to_owned()),
                None => None,
            };
            rows.push(row);
            i = i + 1;
        }
        let m = IndexMatrix { rows, num_columns: self.num_columns };
        assert forall|r: int| #[trigger] m.row(r) == self.row(r) by {}
        m
    }

    /// The lattice join: unions every materialised row of `other` into the
    /// same row here; returns whether any row gained a column.
    pub fn join(&mut self, other: &IndexMatrix) -> (changed: bool)
        requires
            old(self).wf(),
            other.wf(),
            other.columns() == old(self).columns(),
        ensures
            final(self).wf(),
            final(self).columns() == old(self).columns(),
            forall|r: int| #[trigger] final(self).has_row(r) == (old(self).has_row(r) || other.has_row(r)),
            forall|r: int| #[trigger] final(self).row(r) == old(self).row(r).union(other.row(r)),
            final(self).nrows() >= old(self).nrows(),
            forall|r: int| old(self).nrows() <= r ==> (r < final(self).nrows() <==> #[trigger] other.has_row_in(r, other.nrows() as int)),
            changed == exists|r: int| !(#[trigger] other.row(r)).subset_of(old(self).row(r)),
    {
        let n = other.rows.len();
        let mut changed = false;
        let mut i: usize = 0;
        while i < n
            invariant
                i <= n,
                n == other.nrows(),
                other.wf(),
                self.wf(),
                self.columns() == old(self).columns(),
                other.columns() == old(self).columns(),
                forall|r: int| #[trigger] self.has_row(r) == (old(self).has_row(r) || (r < i && other.has_row(r))),
                forall|r: int| #[trigger] self.row(r) == if r < i { old(self).row(r).union(other.row(r)) } else { old(self).row(r) },
                self.nrows() >= old(self).nrows(),
                forall|r: int| old(self).nrows() <= r ==> (r < self.nrows() <==> #[trigger] other.has_row_in(r, i as int)),
                changed == exists|r: int| 0 <= r < i && !(#[trigger] other.row(r)).subset_of(old(self).row(r)),
            decreases n - i,
        {
            let ghost before = *self;
            proof {
                assert forall|r: int| #![auto] other.has_row_in(r, i + 1) == (other.has_row_in(r, i as int) || (r <= i && other.has_row(i as int))) by {
                    other.lemma_has_row_in_step(r, i as int);
                }
            }
            match other.row_set(i) {
                Some(s) => {
                    let c = self.union_into_row(i, s);
                    changed = changed || c;
                },
                None => {
                    proof {
                        assert(other.row(i as int) =~= Set::<int>::empty());
                    }
                },
            }
            proof {
                assert forall|r: int| self.has_row(r) == (old(self).has_row(r) || (r < i + 1 && other.has_row(r))) by {
                    if r != i {
                        assert(before.has_row(r) == (old(self).has_row(r) || (r < i && other.has_row(r))));
                    }
                }
                assert forall|r: int| old(self).nrows() <= r implies (r < self.nrows() <==> #[trigger] other.has_row_in(r, i + 1)) by {
                    other.lemma_has_row_in_step(r, i as int);
                }
            }
            proof {
                assert forall|r: int| #[trigger] self.row(r) == if r < i + 1 { old(self).row(r).union(other.row(r)) } else { old(self).row(r) } by {
                    if r == i {
                        if !other.has_row(r) {
                            assert(old(self).row(r).union(other.row(r)) =~= old(self).row(r));
                        }
                    }
                }
            }
            i = i + 1;
        }
        proof {
            assert forall|r: int| #[trigger] self.row(r) == old(self).row(r).union(other.row(r)) by {
                if r >= n || r < 0 {
                    assert(!other.has_row(r));
                    assert(old(self).row(r).union(other.row(r)) =~= old(self).row(r));
                }
            }
            assert forall|r: int| self.has_row(r) == (old(self).has_row(r) || other.has_row(r)) by {
                if other.has_row(r) {
                    assert(r < n);
                }
            }
            if exists|r: int| !(#[trigger] other.row(r)).subset_of(old(self).row(r)) {
                let r = choose|r: int| !(#[trigger] other.row(r)).subset_of(old(self).row(r));
                assert(other.has_row(r));
            }
        }
        changed
    }
}

} // verus!
