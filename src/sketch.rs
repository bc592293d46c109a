//! The bucket store of a relative-error quantile sketch.
//!
//! A value is represented here by the index of the logarithmic bucket it falls
//! into. The store keeps one occupancy count per occupied bucket, in ascending
//! index order, and answers rank queries by walking those counts.
use vstd::prelude::*;

verus! {

/// The ways in which an operation of the sketch can fail.
#[derive(Debug, Clone, Copy, PartialEq, Eq, Structural)]
pub enum SketchError {
    /// The relative accuracy lies outside the open interval (0, 1).
    InvalidAccuracy,
    /// A value that is not finite and strictly positive, or whose bucket index
    /// does not fit the index type.
    InvalidValue,
    /// A quantile outside [0, 1], or a rank at or past the number of values.
    InvalidQuantile,
    /// Nothing has been inserted yet.
    Empty,
    /// The bucket walk ran out of buckets before reaching the requested rank:
    /// the value count and the bucket counts disagree. The store's
    /// bookkeeping rules this out, so `BucketStore::quantile` never returns it.
    Inconsistent,
}

/// `c` copies of the bucket index `k`.
pub open spec fn repeat(k: int, c: nat) -> Seq<int> {
    Seq::new(c, |_j: int| k)
}

/// Every value represented by a list of `(index, count)` entries, in list order.
pub open spec fn expand(s: Seq<(i32, usize)>) -> Seq<int>
    decreases s.len(),
{
    if s.len() == 0 {
        Seq::empty()
    } else {
        expand(s.drop_last()) + repeat(s.last().0 as int, s.last().1 as nat)
    }
}

/// The sequence is in ascending order.
pub open spec fn sorted(s: Seq<int>) -> bool {
    forall|i: int, j: int| 0 <= i <= j < s.len() ==> s[i] <= s[j]
}

/// How many elements of `s` are smaller than `k`.
pub open spec fn count_less(s: Seq<int>, k: int) -> nat
    decreases s.len(),
{
    if s.len() == 0 {
        0
    } else {
        count_less(s.drop_last(), k) + if s.last() < k {
            1nat
        } else {
            0nat
        }
    }
}

/// `s` with `k` placed after every element smaller than it and before the rest.
pub open spec fn insert_sorted(s: Seq<int>, k: int) -> Seq<int> {
    s.insert(count_less(s, k) as int, k)
}

/// The values held after inserting `indices` in order into an empty store.
pub open spec fn after_inserts(indices: Seq<int>) -> Seq<int>
    decreases indices.len(),
{
    if indices.len() == 0 {
        Seq::empty()
    } else {
        insert_sorted(after_inserts(indices.drop_last()), indices.last())
    }
}

/// Entries have strictly increasing indices and strictly positive counts.
pub open spec fn well_formed_entries(s: Seq<(i32, usize)>) -> bool {
    &&& forall|i: int, j: int| 0 <= i < j < s.len() ==> s[i].0 < s[j].0
    &&& forall|i: int| 0 <= i < s.len() ==> s[i].1 > 0
}

proof fn lemma_expand_concat(a: Seq<(i32, usize)>, b: Seq<(i32, usize)>)
    ensures
        expand(a + b) == expand(a) + expand(b),
    decreases b.len(),
{
    if b.len() == 0 {
        assert(a + b =~= a);
        assert(expand(b) =~= Seq::<int>::empty());
        assert(expand(a) + expand(b) =~= expand(a));
    } else {
        assert((a + b).drop_last() =~= a + b.drop_last());
        lemma_expand_concat(a, b.drop_last());
        assert(expand(a + b) =~= expand(a) + expand(b));
    }
}

proof fn lemma_expand_single(e: (i32, usize))
    ensures
        expand(seq![e]) == repeat(e.0 as int, e.1 as nat),
{
    assert(seq![e].drop_last() =~= Seq::<(i32, usize)>::empty());
    assert(expand(Seq::<(i32, usize)>::empty()) =~= Seq::<int>::empty());
    assert(expand(seq![e]) =~= repeat(e.0 as int, e.1 as nat));
}

proof fn lemma_expand_split(s: Seq<(i32, usize)>, p: int)
    requires
        0 <= p < s.len(),
    ensures
        expand(s) == expand(s.take(p)) + repeat(s[p].0 as int, s[p].1 as nat) + expand(
            s.skip(p + 1),
        ),
{
    assert(s =~= s.take(p) + seq![s[p]] + s.skip(p + 1));
    lemma_expand_concat(s.take(p) + seq![s[p]], s.skip(p + 1));
    lemma_expand_concat(s.take(p), seq![s[p]]);
    lemma_expand_single(s[p]);
}

proof fn lemma_expand_below(s: Seq<(i32, usize)>, k: int)
    requires
        forall|i: int| 0 <= i < s.len() ==> s[i].0 < k,
    ensures
        forall|j: int| 0 <= j < expand(s).len() ==> expand(s)[j] < k,
    decreases s.len(),
{
    if s.len() > 0 {
        let t = s.drop_last();
        lemma_expand_below(t, k);
        assert forall|j: int| 0 <= j < expand(s).len() implies expand(s)[j] < k by {
            if j >= expand(t).len() {
                assert(expand(s)[j] == s.last().0 as int);
            } else {
                assert(expand(s)[j] == expand(t)[j]);
            }
        }
    }
}

proof fn lemma_expand_above(s: Seq<(i32, usize)>, k: int)
    requires
        forall|i: int| 0 <= i < s.len() ==> s[i].0 > k,
    ensures
        forall|j: int| 0 <= j < expand(s).len() ==> expand(s)[j] > k,
    decreases s.len(),
{
    if s.len() > 0 {
        let t = s.drop_last();
        lemma_expand_above(t, k);
        assert forall|j: int| 0 <= j < expand(s).len() implies expand(s)[j] > k by {
            if j >= expand(t).len() {
                assert(expand(s)[j] == s.last().0 as int);
            } else {
                assert(expand(s)[j] == expand(t)[j]);
            }
        }
    }
}

proof fn lemma_expand_sorted(s: Seq<(i32, usize)>)
    requires
        well_formed_entries(s),
    ensures
        sorted(expand(s)),
    decreases s.len(),
{
    if s.len() > 0 {
        let t = s.drop_last();
        let k = s.last().0 as int;
        assert(well_formed_entries(t));
        lemma_expand_sorted(t);
        assert forall|i: int| 0 <= i < t.len() implies t[i].0 < k by {
            assert(s[i].0 < s[s.len() - 1].0);
        }
        lemma_expand_below(t, k);
    }
}

/// The occupancy counts of the buckets that hold at least one value.
pub struct BucketStore {
    buckets: Vec<(i32, usize)>,
    num_values: usize,
}

impl View for BucketStore {
    type V = Seq<int>;

    /// The bucket index of every inserted value, in ascending order.
    closed spec fn view(&self) -> Seq<int> {
        expand(self.buckets@)
    }
}

impl BucketStore {
    /// Bookkeeping holds: entries are ordered with positive counts, and the
    /// value count equals the sum of the bucket counts.
    pub closed spec fn wf(&self) -> bool {
        &&& well_formed_entries(self.buckets@)
        &&& self.num_values as nat == expand(self.buckets@).len()
    }

    /// A store with no values.
    pub fn new() -> (r: Self)
        ensures
            r.wf(),
            r@ == Seq::<int>::empty(),
    {
        let r = BucketStore { buckets: Vec::new(), num_values: 0 };
        assert(r@ =~= Seq::<int>::empty());
        r
    }

    /// The number of values inserted so far.
    pub fn size(&self) -> (r: usize)
        requires
            self.wf(),
        ensures
            r == self@.len(),
    {
        self.num_values
    }

    /// Counts one more value in the bucket `index`, creating the bucket if it
    /// was empty.
    pub fn insert(&mut self, index: i32)
        requires
            old(self).wf(),
            old(self)@.len() < usize::MAX,
        ensures
            final(self).wf(),
            final(self)@ == insert_sorted(old(self)@, index as int),
            final(self)@.len() == old(self)@.len() + 1,
    {
        let len = self.buckets.len();
        let mut p: usize = 0;
        let mut hi: usize = len;
        while p < hi
            invariant
                p <= hi <= len,
                len == self.buckets@.len(),
                well_formed_entries(self.buckets@),
                forall|i: int| 0 <= i < p ==> self.buckets@[i].0 < index,
                forall|i: int| hi <= i < len ==> self.buckets@[i].0 >= index,
            decreases hi - p,
        {
            let mid = p + (hi - p) / 2;
            if self.buckets[mid].0 < index {
                proof {
                    assert forall|i: int| 0 <= i <= mid implies self.buckets@[i].0 < index by {
                        if i < mid {
                            assert(self.buckets@[i].0 < self.buckets@[mid as int].0);
                        }
                    }
                }
                p = mid + 1;
            } else {
                proof {
                    assert forall|i: int| mid <= i < len implies self.buckets@[i].0 >= index by {
                        if i > mid {
                            assert(self.buckets@[mid as int].0 < self.buckets@[i].0);
                        }
                    }
                }
                hi = mid;
            }
        }
        let ghost s = self.buckets@;
        proof {
            assert forall|i: int| p < i < len implies s[i].0 > index by {
                assert(s[p as int].0 < s[i].0);
            }
            assert(p < len ==> s[p as int].0 >= index);
            lemma_insert_position(s, p as int, index);
        }
        if p < len && self.buckets[p].0 == index {
            let c = self.buckets[p].1;
            proof {
                lemma_expand_split(s, p as int);
            }
            self.buckets.set(p, (index, c + 1));
            self.num_values = self.num_values + 1;
            proof {
                lemma_bump_entry(s, p as int);
                assert(self.buckets@ == s.update(p as int, (index, (c + 1) as usize)));
                let pos = expand(s.take(p as int)).len() as int;
                assert(self@ == old(self)@.insert(pos, index as int));
            }
        } else {
            self.buckets.insert(p, (index, 1));
            self.num_values = self.num_values + 1;
            proof {
                lemma_new_entry(s, p as int, index);
                let pos = expand(s.take(p as int)).len() as int;
                assert(self@ == old(self)@.insert(pos, index as int));
            }
        }
    }

    /// The sum of the occupancy counts over all buckets.
    pub fn bucket_sum(&self) -> (r: usize)
        requires
            self.wf(),
        ensures
            r == self@.len(),
    {
        let len = self.buckets.len();
        let mut j: usize = 0;
        let mut acc: usize = 0;
        while j < len
            invariant
                self.wf(),
                j <= len,
                len == self.buckets@.len(),
                acc == expand(self.buckets@.take(j as int)).len(),
            decreases len - j,
        {
            proof {
                lemma_prefix_step(self.buckets@, j as int);
            }
            acc = acc + self.buckets[j].1;
            j = j + 1;
        }
        proof {
            assert(self.buckets@.take(len as int) =~= self.buckets@);
        }
        acc
    }

    /// The bucket index of the value of rank `rank` (counted from zero) among
    /// all inserted values in ascending order.
    ///
    /// Buckets are walked in ascending index order; the first one whose running
    /// count goes past `rank` is the answer.
    pub fn quantile(&self, rank: usize) -> (r: Result<i32, SketchError>)
        requires
            self.wf(),
        ensures
            self@.len() == 0 ==> r == Err::<i32, SketchError>(SketchError::Empty),
            0 < self@.len() <= rank ==> r == Err::<i32, SketchError>(SketchError::InvalidQuantile),
            rank < self@.len() ==> (r matches Ok(i) && i as int == self@[rank as int]),
    {
        if self.num_values == 0 {
            return Err(SketchError::Empty);
        }
        if rank >= self.num_values {
            return Err(SketchError::InvalidQuantile);
        }
        let len = self.buckets.len();
        let mut j: usize = 0;
        let mut acc: usize = 0;
        while j < len
            invariant
                self.wf(),
                j <= len,
                len == self.buckets@.len(),
                acc == expand(self.buckets@.take(j as int)).len(),
                acc <= rank < self@.len(),
            decreases len - j,
        {
            proof {
                lemma_prefix_step(self.buckets@, j as int);
            }
            let (index, count) = self.buckets[j];
            if rank < acc + count {
                proof {
                    let s = self.buckets@;
                    lemma_expand_split(s, j as int);
                    assert(s.take(j + 1).drop_last() =~= s.take(j as int));
                    assert(self@[rank as int] == expand(s.take(j + 1))[rank as int]);
                }
                return Ok(index);
            }
            acc = acc + count;
            j = j + 1;
        }
        // not reached: the walk has now counted every value, and there are
        // more of them than `rank`
        proof {
            assert(self.buckets@.take(len as int) =~= self.buckets@);
            assert(false);
        }
        Err(SketchError::Inconsistent)
    }
}

/// One more entry of a prefix adds its count to the prefix's values, which
/// never outnumber those of the whole list.
proof fn lemma_prefix_step(s: Seq<(i32, usize)>, j: int)
    requires
        0 <= j < s.len(),
    ensures
        expand(s.take(j + 1)) == expand(s.take(j)) + repeat(s[j].0 as int, s[j].1 as nat),
        expand(s.take(j + 1)).len() <= expand(s).len(),
{
    assert(s.take(j + 1).drop_last() =~= s.take(j));
    assert(s =~= s.take(j + 1) + s.skip(j + 1));
    lemma_expand_concat(s.take(j + 1), s.skip(j + 1));
}

/// Raising the count of entry `p` by one inserts one more copy of its index.
proof fn lemma_bump_entry(s: Seq<(i32, usize)>, p: int)
    requires
        well_formed_entries(s),
        0 <= p < s.len(),
        s[p].1 < usize::MAX,
    ensures
        ({
            let s2 = s.update(p, (s[p].0, (s[p].1 + 1) as usize));
            &&& well_formed_entries(s2)
            &&& expand(s2) == expand(s).insert(expand(s.take(p)).len() as int, s[p].0 as int)
            &&& expand(s.take(p)).len() <= expand(s).len()
        }),
{
    let s2 = s.update(p, (s[p].0, (s[p].1 + 1) as usize));
    lemma_expand_split(s, p);
    assert(s2.take(p) =~= s.take(p));
    assert(s2.skip(p + 1) =~= s.skip(p + 1));
    lemma_expand_split(s2, p);
    let pos = expand(s.take(p)).len() as int;
    assert(expand(s2) =~= expand(s).insert(pos, s[p].0 as int));
}

/// Adding an entry of count one at its ordered place inserts one copy of its
/// index.
proof fn lemma_new_entry(s: Seq<(i32, usize)>, p: int, index: i32)
    requires
        well_formed_entries(s),
        0 <= p <= s.len(),
        forall|i: int| 0 <= i < p ==> s[i].0 < index,
        forall|i: int| p <= i < s.len() ==> s[i].0 > index,
    ensures
        ({
            let s2 = s.insert(p, (index, 1usize));
            &&& well_formed_entries(s2)
            &&& expand(s2) == expand(s).insert(expand(s.take(p)).len() as int, index as int)
            &&& expand(s.take(p)).len() <= expand(s).len()
        }),
{
    let s2 = s.insert(p, (index, 1usize));
    assert(s2.take(p) =~= s.take(p));
    assert(s2.skip(p + 1) =~= s.skip(p));
    assert(s =~= s.take(p) + s.skip(p));
    lemma_expand_concat(s.take(p), s.skip(p));
    lemma_expand_split(s2, p);
    let pos = expand(s.take(p)).len() as int;
    assert(expand(s2) =~= expand(s).insert(pos, index as int));
    assert forall|i: int, j: int| 0 <= i < j < s2.len() implies s2[i].0 < s2[j].0 by {
        if j < p {
        } else if j == p {
        } else if i < p {
            assert(s2[j] == s[j - 1]);
        } else if i == p {
            assert(s2[j] == s[j - 1]);
        } else {
            assert(s2[j] == s[j - 1]);
            assert(s2[i] == s[i - 1]);
        }
    }
}

proof fn lemma_count_less_concat(a: Seq<int>, b: Seq<int>, k: int)
    ensures
        count_less(a + b, k) == count_less(a, k) + count_less(b, k),
    decreases b.len(),
{
    if b.len() == 0 {
        assert(a + b =~= a);
    } else {
        assert((a + b).drop_last() =~= a + b.drop_last());
        lemma_count_less_concat(a, b.drop_last(), k);
    }
}

proof fn lemma_count_less_bounds(s: Seq<int>, k: int)
    ensures
        count_less(s, k) <= s.len(),
        (forall|i: int| 0 <= i < s.len() ==> s[i] < k) ==> count_less(s, k) == s.len(),
        (forall|i: int| 0 <= i < s.len() ==> s[i] >= k) ==> count_less(s, k) == 0,
    decreases s.len(),
{
    if s.len() > 0 {
        lemma_count_less_bounds(s.drop_last(), k);
    }
}

/// Where a new index goes among the values of ordered entries: after those of
/// the first `p` entries, whose indices are smaller.
proof fn lemma_insert_position(s: Seq<(i32, usize)>, p: int, index: i32)
    requires
        0 <= p <= s.len(),
        forall|i: int| 0 <= i < p ==> s[i].0 < index,
        forall|i: int| p <= i < s.len() ==> s[i].0 >= index,
    ensures
        count_less(expand(s), index as int) == expand(s.take(p)).len(),
{
    assert(s =~= s.take(p) + s.skip(p));
    lemma_expand_concat(s.take(p), s.skip(p));
    lemma_expand_below(s.take(p), index as int);
    lemma_expand_above(s.skip(p), index - 1);
    lemma_count_less_concat(expand(s.take(p)), expand(s.skip(p)), index as int);
    lemma_count_less_bounds(expand(s.take(p)), index as int);
    lemma_count_less_bounds(expand(s.skip(p)), index as int);
}

/// Count invariant: inserting any `indices` one by one into an empty store
/// leaves exactly as many values as were inserted, and they are the inserted
/// indices.
pub proof fn lemma_count_after_inserts(indices: Seq<int>)
    ensures
        after_inserts(indices).len() == indices.len(),
        after_inserts(indices).to_multiset() == indices.to_multiset(),
    decreases indices.len(),
{
    broadcast use vstd::seq_lib::group_to_multiset_ensures;

    if indices.len() == 0 {
        assert(after_inserts(indices).to_multiset() =~= indices.to_multiset());
    } else {
        let before = after_inserts(indices.drop_last());
        let k = indices.last();
        lemma_count_after_inserts(indices.drop_last());
        lemma_count_less_bounds(before, k);
        let after = insert_sorted(before, k);
        let pos = count_less(before, k) as int;
        assert(after.remove(pos) =~= before);
        assert(after.to_multiset().count(k) > 0);
        assert(after.to_multiset() =~= before.to_multiset().insert(k));
        assert(indices =~= indices.drop_last().push(k));
    }
}

impl BucketStore {
    /// The values of a store are kept in ascending bucket order, so rank zero
    /// holds the smallest inserted index and the last rank the largest.
    pub proof fn lemma_boundary_ranks(&self)
        requires
            self.wf(),
        ensures
            sorted(self@),
            forall|i: int|
                0 <= i < self@.len() ==> self@[0] <= #[trigger] self@[i] <= self@[self@.len() - 1],
    {
        lemma_expand_sorted(self.buckets@);
    }
}

} // verus!
